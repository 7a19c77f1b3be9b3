//! Verification of findings against the compiled artifact.
//!
//! The analysis reads MIR, which is what the program means; the artifact is
//! what the optimizer kept. A check the folder could not settle is often
//! settled by the optimizer anyway, so each finding is looked up in the
//! compiled code: a panic entry point still reachable from the function
//! confirms it, a function whose calls are all accounted for and reach no
//! entry point shows the optimizer removed it, and anything else stays
//! unverified. The verdict is a confidence tier, never a removal.
//!
//! The sweep reads relocations, so a call the compiler emitted without one,
//! an indirect tail call for example, is invisible; functions making calls
//! through registers are therefore never claimed panic free.

use vstd::prelude::*;

use crate::bytes;
use crate::category;
use crate::category::{Category, CategorySet};
use crate::graph;
use crate::graph::{FuncId, Graph};
use crate::lists;
use crate::lists::Order;
use crate::model::{BodyView, FuncKey};
use crate::solve::Solution;
use crate::table;
use crate::table::Table;
use crate::text;

verus! {

/// Whether a file of a build tree is one that is swept, by its name and that
/// of the directory it is in: a library among the profile's own output.
///
/// An artifact left by another profile was built under other settings, and
/// one under a build script's directory is not what the report describes.
pub fn is_swept(name: &str, parent: &str, profile_dir: &str) -> (r: bool)
    ensures
        r == (text::occurs_at(name@, "lib"@, 0) && text::closes(name@, ".rlib"@) && parent@
            == profile_dir@),
{
    text::starts_with(name, "lib") && text::ends_with(name, ".rlib") && text::same(
        parent,
        profile_dir,
    )
}

/// Whether a directory of a build tree is looked into, by its name. What a
/// library depends on is kept in one of its own.
pub fn is_walked(name: &str) -> (r: bool)
    ensures
        r == (name@ != "deps"@),
{
    !text::same(name, "deps")
}

/// How a finding relates to the compiled artifact.
#[derive(Debug, Clone, Copy, PartialEq, Eq, Structural)]
pub enum Verdict {
    /// A matching panic entry point is reachable from the compiled code.
    Confirmed,
    /// The compiled code reaches no matching entry point, and every call it
    /// makes was seen, so the optimizer removed the panic path.
    Absent,
    /// The artifact cannot settle it: the function was inlined away, calls
    /// code the sweep cannot see into, or the category leaves no symbol.
    Unverified,
}

impl Verdict {
    /// The name used in reports.
    pub open spec fn spec_name(self) -> Seq<char> {
        match self {
            Verdict::Confirmed => "confirmed"@,
            Verdict::Absent => "absent"@,
            Verdict::Unverified => "unverified"@,
        }
    }

    /// The name used in reports.
    pub fn name(self) -> (r: &'static str)
        ensures
            r@ == self.spec_name(),
    {
        match self {
            Verdict::Confirmed => "confirmed",
            Verdict::Absent => "absent",
            Verdict::Unverified => "unverified",
        }
    }
}

/// The categories that a panic entry point of a given name could stand for.
///
/// The first name of the list that occurs decides, and the most specific come
/// first. The funnels serve several categories, and claiming the narrowest
/// would confirm too little.
pub open spec fn entry_of(name: Seq<char>) -> Option<Set<Category>> {
    let unwrapping = set![Category::Unwrap, Category::Poison, Category::Fmt];
    if text::holds(name, "core::panicking::panic_bounds_check"@) {
        Some(set![Category::Index])
    } else if text::holds(name, "core::slice::index::slice_"@) {
        Some(set![Category::Index])
    } else if text::holds(name, "core::str::slice_error_fail"@) {
        Some(set![Category::StrBoundary])
    } else if text::holds(name, "core::option::unwrap_failed"@) {
        Some(unwrapping)
    } else if text::holds(name, "core::option::expect_failed"@) {
        Some(unwrapping)
    } else if text::holds(name, "core::result::unwrap_failed"@) {
        Some(unwrapping)
    } else if text::holds(name, "core::cell::panic_already"@) {
        Some(set![Category::Borrow])
    } else if text::holds(name, "alloc::raw_vec::capacity_overflow"@) {
        Some(set![Category::CapacityOverflow])
    } else if text::holds(name, "alloc::raw_vec::handle_error"@) {
        Some(category::allocation())
    } else if text::holds(name, "alloc::raw_vec::handle_reserve"@) {
        Some(category::allocation())
    } else if text::holds(name, "handle_alloc_error"@) {
        Some(set![Category::AllocFailure])
    } else if text::holds(name, "panic_const_div_by_zero"@) {
        Some(set![Category::DivideByZero])
    } else if text::holds(name, "panic_const_rem_by_zero"@) {
        Some(set![Category::RemainderByZero])
    } else if text::holds(name, "panic_const_coroutine"@) {
        Some(set![Category::Explicit])
    } else if text::holds(name, "panic_const_async"@) {
        Some(set![Category::Explicit])
    } else if text::holds(name, "panic_const_gen_fn"@) {
        Some(set![Category::Explicit])
    } else if text::holds(name, "panic_const_"@) {
        Some(set![Category::Overflow])
    } else if text::holds(name, "panic_misaligned_pointer"@) {
        Some(set![Category::MisalignedRef])
    } else if text::holds(name, "panic_null_pointer"@) {
        Some(set![Category::NullDeref])
    } else if text::holds(name, "core::panicking::panic_nounwind"@) {
        Some(set![Category::Explicit, Category::UbCheck])
    } else if text::holds(name, "resume_unwind"@) {
        Some(set![Category::Explicit])
    } else if text::holds(name, "len_mismatch_fail"@) {
        Some(set![Category::Explicit])
    } else if text::holds(name, "core::panicking::"@) {
        Some(set![Category::Explicit])
    } else {
        None
    }
}

/// A set of three categories.
fn three(a: Category, b: Category, c: Category) -> (r: CategorySet)
    ensures
        r@ == set![a, b, c],
{
    let mut set = CategorySet::single(a);
    set.insert(b);
    set.insert(c);
    set
}

/// The categories that a panic entry point of a given readable name could
/// stand for.
pub fn entry_categories(demangled: &str) -> (r: Option<CategorySet>)
    ensures
        match r {
            Some(set) => entry_of(demangled@) == Some(set@),
            None => entry_of(demangled@) is None,
        },
{
    if text::contains(demangled, "core::panicking::panic_bounds_check") {
        Some(CategorySet::single(Category::Index))
    } else if text::contains(demangled, "core::slice::index::slice_") {
        Some(CategorySet::single(Category::Index))
    } else if text::contains(demangled, "core::str::slice_error_fail") {
        Some(CategorySet::single(Category::StrBoundary))
    } else if text::contains(demangled, "core::option::unwrap_failed") {
        Some(three(Category::Unwrap, Category::Poison, Category::Fmt))
    } else if text::contains(demangled, "core::option::expect_failed") {
        Some(three(Category::Unwrap, Category::Poison, Category::Fmt))
    } else if text::contains(demangled, "core::result::unwrap_failed") {
        Some(three(Category::Unwrap, Category::Poison, Category::Fmt))
    } else if text::contains(demangled, "core::cell::panic_already") {
        Some(CategorySet::single(Category::Borrow))
    } else if text::contains(demangled, "alloc::raw_vec::capacity_overflow") {
        Some(CategorySet::single(Category::CapacityOverflow))
    } else if text::contains(demangled, "alloc::raw_vec::handle_error") {
        Some(CategorySet::oom())
    } else if text::contains(demangled, "alloc::raw_vec::handle_reserve") {
        Some(CategorySet::oom())
    } else if text::contains(demangled, "handle_alloc_error") {
        Some(CategorySet::single(Category::AllocFailure))
    } else if text::contains(demangled, "panic_const_div_by_zero") {
        Some(CategorySet::single(Category::DivideByZero))
    } else if text::contains(demangled, "panic_const_rem_by_zero") {
        Some(CategorySet::single(Category::RemainderByZero))
    } else if text::contains(demangled, "panic_const_coroutine") {
        Some(CategorySet::single(Category::Explicit))
    } else if text::contains(demangled, "panic_const_async") {
        Some(CategorySet::single(Category::Explicit))
    } else if text::contains(demangled, "panic_const_gen_fn") {
        Some(CategorySet::single(Category::Explicit))
    } else if text::contains(demangled, "panic_const_") {
        Some(CategorySet::single(Category::Overflow))
    } else if text::contains(demangled, "panic_misaligned_pointer") {
        Some(CategorySet::single(Category::MisalignedRef))
    } else if text::contains(demangled, "panic_null_pointer") {
        Some(CategorySet::single(Category::NullDeref))
    } else if text::contains(demangled, "core::panicking::panic_nounwind") {
        let mut set = CategorySet::single(Category::Explicit);
        set.insert(Category::UbCheck);
        Some(set)
    } else if text::contains(demangled, "resume_unwind") {
        Some(CategorySet::single(Category::Explicit))
    } else if text::contains(demangled, "len_mismatch_fail") {
        Some(CategorySet::single(Category::Explicit))
    } else if text::contains(demangled, "core::panicking::") {
        Some(CategorySet::single(Category::Explicit))
    } else {
        None
    }
}

/// Whether a character is a hexadecimal digit.
pub open spec fn is_hex(c: char) -> bool {
    text::is_digit(c) || 'a' <= c <= 'f' || 'A' <= c <= 'F'
}

/// Whether a text is an address: hexadecimal digits, and at least one.
pub open spec fn is_address(s: Seq<char>) -> bool {
    s.len() > 0 && forall|i: int| 0 <= i < s.len() ==> is_hex(#[trigger] s[i])
}

/// Whether a text is an address.
fn address(s: &str) -> (r: bool)
    ensures
        r == is_address(s@),
{
    let v = text::chars_of(s);
    let mut i: usize = 0;
    while i < v.len()
        invariant
            i <= v@.len(),
            v@ == s@,
            forall|k: int| 0 <= k < i ==> is_hex(#[trigger] v@[k]),
        decreases v.len() - i,
    {
        let c = v[i];
        if !(('0' <= c && c <= '9') || ('a' <= c && c <= 'f') || ('A' <= c && c <= 'F')) {
            assert(!is_hex(s@[i as int]));
            return false;
        }
        i += 1;
    }
    v.len() > 0
}

/// The function a disassembly label line defines.
pub open spec fn label_of(line: Seq<char>) -> Option<Seq<char>> {
    if text::closes(line, ">:"@) {
        match text::parted(line.take(line.len() - ">:"@.len()), " <"@) {
            Some((start, name)) => if is_address(start) {
                Some(name)
            } else {
                None
            },
            None => None,
        }
    } else {
        None
    }
}

/// The function a disassembly label line defines.
fn function_label(line: &str) -> (r: Option<String>)
    ensures
        match r {
            Some(name) => label_of(line@) == Some(name@),
            None => label_of(line@) is None,
        },
{
    if !text::ends_with(line, ">:") {
        return None;
    }
    let len: usize = line.unicode_len();
    let cut: usize = ">:".unicode_len();
    let rest = line.substring_char(0, len - cut);
    assert(rest@ =~= line@.take(line@.len() - ">:"@.len()));
    match text::split_once(rest, " <") {
        Some((start, name)) => if address(start.as_str()) {
            Some(name)
        } else {
            None
        },
        None => None,
    }
}

/// The mnemonic of a disassembled instruction line.
pub open spec fn mnemonic_of(line: Seq<char>) -> Option<Seq<char>> {
    match text::parted(line, ":"@) {
        Some((start, rest)) => {
            let word = text::first_word(rest);
            if is_address(text::trimmed(start)) && word.len() > 0 && !text::occurs_at(
                word,
                "R_"@,
                0,
            ) {
                Some(word)
            } else {
                None
            }
        },
        None => None,
    }
}

/// The mnemonic of a disassembled instruction line.
///
/// A relocation line carries an address too, so it is told apart by the
/// relocation kind that follows it rather than by shape.
fn mnemonic(line: &str) -> (r: Option<String>)
    ensures
        match r {
            Some(word) => mnemonic_of(line@) == Some(word@),
            None => mnemonic_of(line@) is None,
        },
{
    match text::split_once(line, ":") {
        Some((start, rest)) => {
            let start = text::trim(start.as_str());
            if !address(start.as_str()) {
                return None;
            }
            let word = text::leading_word(rest.as_str());
            if word.as_str().is_empty() || text::starts_with(word.as_str(), "R_") {
                None
            } else {
                Some(word)
            }
        },
        None => None,
    }
}

/// Where the last `+` or `-` of a text stands, if it has one.
pub open spec fn last_sign(s: Seq<char>) -> Option<int>
    decreases s.len(),
{
    if s.len() == 0 {
        None
    } else if s.last() == '+' || s.last() == '-' {
        Some(s.len() - 1)
    } else {
        last_sign(s.drop_last())
    }
}

/// A relocation's symbol without the offset added to it.
pub open spec fn without_offset(raw: Seq<char>) -> Seq<char> {
    match last_sign(raw) {
        Some(at) => if text::occurs_at(raw.skip(at + 1), "0x"@, 0) {
            raw.take(at)
        } else {
            raw
        },
        None => raw,
    }
}

/// A relocation's symbol without the offset added to it.
fn strip_offset(raw: &str) -> (r: String)
    ensures
        r@ == without_offset(raw@),
{
    let v = text::chars_of(raw);
    let mut i: usize = v.len();
    assert(raw@.take(i as int) =~= raw@);
    while i > 0
        invariant
            i <= v@.len(),
            v@ == raw@,
            last_sign(raw@) == last_sign(raw@.take(i as int)),
        decreases i,
    {
        assert(raw@.take(i as int).last() == v@[i - 1]);
        assert(raw@.take(i as int).drop_last() =~= raw@.take(i - 1));
        if v[i - 1] == '+' || v[i - 1] == '-' {
            let rest = raw.substring_char(i, v.len());
            assert(rest@ =~= raw@.skip(i as int));
            return if text::starts_with(rest, "0x") {
                raw.substring_char(0, i - 1).to_owned()
            } else {
                raw.to_owned()
            };
        }
        i -= 1;
    }
    raw.to_owned()
}

/// The symbol a relocation line points at, when it is code.
pub open spec fn relocation_of(line: Seq<char>) -> Option<Seq<char>> {
    if !text::holds(line, ":  R_"@) {
        None
    } else {
        let raw = without_offset(text::last_word(line));
        match text::parted(raw, "._R"@) {
            Some((_, inner)) => if text::occurs_at(raw, ".text"@, 0) {
                Some("_R"@ + inner)
            } else {
                None
            },
            None => match text::parted(raw, "._ZN"@) {
                Some((_, inner)) => if text::occurs_at(raw, ".text"@, 0) {
                    Some("_ZN"@ + inner)
                } else {
                    None
                },
                None => if text::occurs_at(raw, "."@, 0) {
                    None
                } else {
                    Some(raw)
                },
            },
        }
    }
}

/// The symbol a relocation line points at, when it is code.
fn relocation_target(line: &str) -> (r: Option<String>)
    ensures
        match r {
            Some(name) => relocation_of(line@) == Some(name@),
            None => relocation_of(line@) is None,
        },
{
    if !text::contains(line, ":  R_") {
        return None;
    }
    let word = text::trailing_word(line);
    let raw = strip_offset(word.as_str());
    if let Some((_, inner)) = text::split_once(raw.as_str(), "._R") {
        // A relocation against a text section names the function through
        // the section that holds it.
        if !text::starts_with(raw.as_str(), ".text") {
            return None;
        }
        let mut out = "_R".to_owned();
        out.append(inner.as_str());
        return Some(out);
    }
    if let Some((_, inner)) = text::split_once(raw.as_str(), "._ZN") {
        if !text::starts_with(raw.as_str(), ".text") {
            return None;
        }
        let mut out = "_ZN".to_owned();
        out.append(inner.as_str());
        return Some(out);
    }
    if text::starts_with(raw.as_str(), ".") {
        // Data the code refers to. Reading it is not calling it, and an
        // actual call through it shows up as a register call.
        return None;
    }
    Some(raw)
}

/// The text that formatting `rustc_demangle::demangle` of a symbol in the
/// alternate form gives.
pub uninterp spec fn demangled(symbol: Seq<char>) -> Seq<char>;

/// `rustc_demangle::demangle` makes a symbol readable. The alternate form
/// drops crate disambiguators, so plain paths can be looked for in it.
#[verifier::external_body]
fn readable(symbol: &str) -> (r: String)
    ensures
        r@ == demangled(symbol@),
{
    format!("{:#}", rustc_demangle::demangle(symbol))
}

/// The call graph read out of the disassembly.
#[verifier::ext_equal]
pub struct Compiled {
    /// What each function that was seen names as a call target.
    pub calls: Map<Seq<char>, Set<Seq<char>>>,
    /// The functions that do something the sweep cannot follow.
    pub open: Set<Seq<char>>,
}

/// Where the reading of a listing stands.
#[verifier::ext_equal]
pub struct Reading {
    pub graph: Compiled,
    /// The function the lines belong to.
    pub current: Option<Seq<char>>,
    /// Whether the last instruction took an address.
    pub taking: bool,
}

/// A listing read one line further.
pub open spec fn read_line(at: Reading, line: Seq<char>) -> Reading {
    let graph = at.graph;
    match label_of(line) {
        Some(label) => Reading {
            graph: Compiled {
                calls: if graph.calls.dom().contains(label) {
                    graph.calls
                } else {
                    graph.calls.insert(label, Set::empty())
                },
                open: graph.open,
            },
            current: Some(label),
            taking: false,
        },
        None => match at.current {
            None => at,
            Some(function) => match relocation_of(line) {
                // Handing a function's address to something else is not
                // calling it. Where the pointer goes is invisible here, so
                // the function is left open rather than credited with
                // reaching what it only names.
                Some(target) => Reading {
                    graph: if at.taking {
                        Compiled { calls: graph.calls, open: graph.open.insert(function) }
                    } else {
                        Compiled {
                            calls: graph.calls.insert(
                                function,
                                graph.calls[function].insert(target),
                            ),
                            open: graph.open,
                        }
                    },
                    ..at
                },
                // A call through a bare register has no relocation to name
                // its target. A load-and-call through the GOT is not one: its
                // target arrives on the next relocation line.
                None => Reading {
                    graph: if text::holds(line, "call"@) && text::holds(line, "*%"@) {
                        Compiled { calls: graph.calls, open: graph.open.insert(function) }
                    } else {
                        graph
                    },
                    current: at.current,
                    taking: match mnemonic_of(line) {
                        Some(word) => text::occurs_at(word, "lea"@, 0),
                        None => at.taking,
                    },
                },
            },
        },
    }
}

/// A listing read `n` lines far.
pub open spec fn read_lines(from: Compiled, lines: Seq<Seq<char>>, n: nat) -> Reading
    decreases n,
{
    if n == 0 {
        Reading { graph: from, current: None, taking: false }
    } else {
        read_line(read_lines(from, lines, (n - 1) as nat), lines[n - 1])
    }
}

/// The call graph read out of the disassembly.
pub struct Graphed {
    index: Table,
    symbols: Vec<String>,
    defined: Vec<bool>,
    callees: Vec<Vec<usize>>,
    open: Vec<bool>,
}

impl View for Graphed {
    type V = Compiled;

    closed spec fn view(&self) -> Compiled {
        Compiled {
            calls: Map::new(
                |s: Seq<char>| self.has(s) && self.defined@[self.at(s)],
                |s: Seq<char>| self.named(self.at(s)),
            ),
            open: Set::new(|s: Seq<char>| self.has(s) && self.open@[self.at(s)]),
        }
    }
}

impl Graphed {
    spec fn has(self, s: Seq<char>) -> bool {
        table::entries(self.index).dom().contains(s)
    }

    spec fn at(self, s: Seq<char>) -> int {
        table::entries(self.index)[s] as int
    }

    spec fn named(self, i: int) -> Set<Seq<char>> {
        Set::new(
            |t: Seq<char>|
                exists|k: int|
                    0 <= k < self.callees@[i]@.len() && self.symbols@[(
                    #[trigger] self.callees@[i]@[k]) as int]@ == t,
        )
    }

    #[verifier::type_invariant]
    spec fn wf(self) -> bool {
        let n = self.symbols@.len();
        &&& self.defined@.len() == n
        &&& self.callees@.len() == n
        &&& self.open@.len() == n
        &&& forall|s: Seq<char>| #[trigger]
            self.has(s) ==> 0 <= self.at(s) < n && self.symbols@[self.at(s)]@ == s
        &&& forall|i: int|
            0 <= i < n ==> self.has((#[trigger] self.symbols@[i])@) && self.at(self.symbols@[i]@)
                == i
        &&& forall|i: int, k: int|
            0 <= i < n && 0 <= k < self.callees@[i]@.len() ==> (
            #[trigger] self.callees@[i]@[k]) < n
        &&& forall|i: int| 0 <= i < n && #[trigger] self.open@[i] ==> self.defined@[i]
        &&& forall|i: int| #![trigger self.defined@[i]]
            0 <= i < n && !self.defined@[i] ==> self.callees@[i]@.len() == 0
    }

    /// What the index says holds of a graph with the same symbols.
    proof fn indexed_as(self, before: Graphed)
        requires
            before.wf(),
            self.index == before.index,
            self.symbols == before.symbols,
        ensures
            forall|s: Seq<char>| #[trigger] self.has(s) == before.has(s),
            forall|s: Seq<char>| #[trigger] self.at(s) == before.at(s),
            forall|s: Seq<char>| #[trigger]
                self.has(s) ==> 0 <= self.at(s) < self.symbols@.len() && self.symbols@[self.at(
                    s,
                )]@ == s,
            forall|i: int|
                0 <= i < self.symbols@.len() ==> self.has((#[trigger] self.symbols@[i])@)
                    && self.at(self.symbols@[i]@) == i,
            self.callees == before.callees ==> forall|i: int, k: int|
                0 <= i < self.symbols@.len() && 0 <= k < self.callees@[i]@.len() ==> (
                #[trigger] self.callees@[i]@[k]) < self.symbols@.len(),
    {
        assert forall|s: Seq<char>| #[trigger] self.has(s) implies 0 <= self.at(s)
            < self.symbols@.len() && self.symbols@[self.at(s)]@ == s by {
            assert(before.has(s));
        }
        assert forall|i: int| 0 <= i < self.symbols@.len() implies self.has(
            (#[trigger] self.symbols@[i])@,
        ) && self.at(self.symbols@[i]@) == i by {
            assert(before.has(before.symbols@[i]@));
        }
        if self.callees == before.callees {
            assert forall|i: int, k: int|
                0 <= i < self.symbols@.len() && 0 <= k < self.callees@[i]@.len() implies (
            #[trigger] self.callees@[i]@[k]) < self.symbols@.len() by {
                assert(before.callees@[i]@[k] < self.symbols@.len());
            }
        }
    }

    /// Starts with nothing read.
    pub fn new() -> (r: Graphed)
        ensures
            r@ == (Compiled { calls: Map::empty(), open: Set::empty() }),
    {
        let r = Graphed {
            index: Table::new(),
            symbols: Vec::new(),
            defined: Vec::new(),
            callees: Vec::new(),
            open: Vec::new(),
        };
        assert(r@ =~= (Compiled { calls: Map::empty(), open: Set::empty() }));
        r
    }

    /// The number of a symbol, which it is given if it has none yet.
    fn intern(self, symbol: &str) -> (r: (Graphed, usize))
        ensures
            r.0@ == self@,
            r.1 < r.0.symbols@.len(),
            r.0.symbols@[r.1 as int]@ == symbol@,
            r.0.has(symbol@),
            r.0.at(symbol@) == r.1,
            forall|s: Seq<char>| #[trigger] self.has(s) ==> r.0.has(s) && r.0.at(s) == self.at(s),
    {
        proof {
            use_type_invariant(&self);
        }
        match self.index.get(symbol) {
            Some(i) => {
                assert(self.has(symbol@));
                return (self, i);
            },
            None => {},
        }
        let ghost before = self;
        let Graphed { mut index, mut symbols, mut defined, mut callees, mut open } = self;
        let fresh: usize = symbols.len();
        index.insert(symbol.to_owned(), fresh);
        symbols.push(symbol.to_owned());
        defined.push(false);
        callees.push(Vec::new());
        open.push(false);
        proof {
            let g = Graphed { index, symbols, defined, callees, open };
            assert forall|s: Seq<char>| #[trigger] g.has(s) implies 0 <= g.at(s)
                < symbols@.len() && g.symbols@[g.at(s)]@ == s by {
                if s != symbol@ {
                    assert(before.has(s));
                }
            }
            assert forall|i: int| 0 <= i < symbols@.len() implies g.has((#[trigger] symbols@[i])@)
                && g.at(symbols@[i]@) == i by {
                if i < fresh {
                    assert(symbols@[i] == before.symbols@[i]);
                    assert(before.has(before.symbols@[i]@));
                }
            }
            assert forall|i: int, k: int|
                0 <= i < symbols@.len() && 0 <= k < callees@[i]@.len() implies (
            #[trigger] callees@[i]@[k]) < symbols@.len() by {
                if i < fresh {
                    assert(callees@[i] == before.callees@[i]);
                    assert(before.callees@[i]@[k] < fresh);
                }
            }
            assert forall|i: int| 0 <= i < fresh implies #[trigger] g.named(i) == before.named(i) by {
                assert(g.callees@[i] == before.callees@[i]);
                assert forall|t: Seq<char>| g.named(i).contains(t) <==> before.named(i).contains(t) by {
                    if g.named(i).contains(t) {
                        let k = choose|k: int|
                            0 <= k < g.callees@[i]@.len() && g.symbols@[(
                            #[trigger] g.callees@[i]@[k]) as int]@ == t;
                        assert(before.callees@[i]@[k] < fresh);
                    }
                    if before.named(i).contains(t) {
                        let k = choose|k: int|
                            0 <= k < before.callees@[i]@.len() && before.symbols@[(
                            #[trigger] before.callees@[i]@[k]) as int]@ == t;
                        assert(g.callees@[i]@[k] < fresh);
                    }
                }
                assert(g.named(i) =~= before.named(i));
            }
            assert forall|s: Seq<char>| #[trigger] before.has(s) implies g.has(s) && g.at(s)
                == before.at(s) by {}
            assert(g@.calls =~= before@.calls) by {
                assert forall|s: Seq<char>| g@.calls.dom().contains(s) <==> before@.calls.dom().contains(
                    s,
                ) by {
                    if g.has(s) && s != symbol@ {
                        assert(before.has(s));
                    }
                }
                assert forall|s: Seq<char>| g@.calls.dom().contains(s) implies g@.calls[s]
                    == before@.calls[s] by {
                    assert(s != symbol@);
                    assert(before.has(s));
                    assert(g.named(g.at(s)) == before.named(before.at(s)));
                }
            }
            assert(g@.open =~= before@.open) by {
                assert forall|s: Seq<char>| g@.open.contains(s) <==> before@.open.contains(s) by {
                    if g.has(s) && s != symbol@ {
                        assert(before.has(s));
                    }
                }
            }
            assert(g@ =~= before@);
        }
        (Graphed { index, symbols, defined, callees, open }, fresh)
    }

    /// Notes that a function is defined.
    fn define(self, label: &str) -> (r: (Graphed, usize))
        ensures
            r.0@ == (Compiled {
                calls: if self@.calls.dom().contains(label@) {
                    self@.calls
                } else {
                    self@.calls.insert(label@, Set::empty())
                },
                open: self@.open,
            }),
            r.1 < r.0.symbols@.len(),
            r.0.symbols@[r.1 as int]@ == label@,
            r.0.defined@[r.1 as int],
    {
        let (made, i) = self.intern(label);
        proof {
            use_type_invariant(&made);
        }
        let ghost before = made;
        let Graphed { index, symbols, mut defined, callees, open } = made;
        defined[i] = true;
        proof {
            let g = Graphed { index, symbols, defined, callees, open };
            g.indexed_as(before);
            let wanted = Compiled {
                calls: if before@.calls.dom().contains(label@) {
                    before@.calls
                } else {
                    before@.calls.insert(label@, Set::empty())
                },
                open: before@.open,
            };
            assert forall|k: int| #[trigger] g.named(k) == before.named(k) by {
                assert(g.named(k) =~= before.named(k));
            }
            assert(g@.calls =~= wanted.calls) by {
                assert forall|s: Seq<char>| g@.calls.dom().contains(s) <==> wanted.calls.dom().contains(
                    s,
                ) by {
                    if g.has(s) {
                        assert(before.has(s));
                        if g.at(s) == i {
                            assert(s == label@);
                        }
                    }
                }
                assert forall|s: Seq<char>| g@.calls.dom().contains(s) implies g@.calls[s]
                    == wanted.calls[s] by {
                    assert(g.named(g.at(s)) == before.named(before.at(s)));
                    if s == label@ && !before.defined@[i as int] {
                        assert(before.named(i as int) =~= Set::empty());
                    }
                }
            }
            assert(g@.open =~= wanted.open);
            assert(g@ =~= wanted);
        }
        (Graphed { index, symbols, defined, callees, open }, i)
    }

    /// Notes that a function does something the sweep cannot follow.
    fn leave_open(self, function: usize) -> (r: Graphed)
        requires
            function < self.symbols@.len(),
            self.defined@[function as int],
        ensures
            r@ == (Compiled {
                calls: self@.calls,
                open: self@.open.insert(self.symbols@[function as int]@),
            }),
            r.symbols == self.symbols,
            r.defined == self.defined,
    {
        proof {
            use_type_invariant(&self);
        }
        let ghost before = self;
        let Graphed { index, symbols, defined, callees, mut open } = self;
        open[function] = true;
        proof {
            let g = Graphed { index, symbols, defined, callees, open };
            g.indexed_as(before);
            let name = symbols@[function as int]@;
            assert(before.has(name));
            assert forall|k: int| #[trigger] g.named(k) == before.named(k) by {
                assert(g.named(k) =~= before.named(k));
            }
            assert(g@.calls =~= before@.calls);
            assert(g@.open =~= before@.open.insert(name)) by {
                assert forall|s: Seq<char>| g@.open.contains(s) <==> before@.open.insert(
                    name,
                ).contains(s) by {
                    if g.has(s) && g.at(s) == function {
                        assert(before.has(s));
                        assert(s == name);
                    }
                }
            }
        }
        Graphed { index, symbols, defined, callees, open }
    }

    /// Notes that a function names a call target.
    fn link(self, function: usize, target: &str) -> (r: Graphed)
        requires
            function < self.symbols@.len(),
            self.defined@[function as int],
        ensures
            r@ == (Compiled {
                calls: self@.calls.insert(
                    self.symbols@[function as int]@,
                    self@.calls[self.symbols@[function as int]@].insert(target@),
                ),
                open: self@.open,
            }),
            function < r.symbols@.len(),
            r.symbols@[function as int]@ == self.symbols@[function as int]@,
            r.defined@[function as int],
    {
        proof {
            use_type_invariant(&self);
        }
        let ghost first = self;
        let ghost name = self.symbols@[function as int]@;
        assert(first.has(name));
        assert(first@.calls.dom().contains(name));
        let (made, t) = self.intern(target);
        proof {
            use_type_invariant(&made);
            assert(made.has(name) && made.at(name) == function);
            assert(made@.calls.dom().contains(name));
        }
        let ghost before = made;
        let Graphed { index, symbols, defined, mut callees, open } = made;
        callees[function].push(t);
        proof {
            let g = Graphed { index, symbols, defined, callees, open };
            g.indexed_as(before);
            let wanted = before@.calls.insert(name, before@.calls[name].insert(target@));
            assert(g.callees@[function as int]@ =~= before.callees@[function as int]@.push(t));
            assert forall|i: int, k: int|
                0 <= i < symbols@.len() && 0 <= k < callees@[i]@.len() implies (
            #[trigger] callees@[i]@[k]) < symbols@.len() by {
                if i != function {
                    assert(callees@[i] == before.callees@[i]);
                    assert(before.callees@[i]@[k] < symbols@.len());
                } else if k < before.callees@[i]@.len() {
                    assert(before.callees@[i]@[k] < symbols@.len());
                }
            }
            assert(g.named(function as int) =~= before.named(function as int).insert(target@)) by {
                let old_list = before.callees@[function as int]@;
                let new_list = g.callees@[function as int]@;
                assert forall|x: Seq<char>| g.named(function as int).contains(x) <==> before.named(
                    function as int,
                ).insert(target@).contains(x) by {
                    if g.named(function as int).contains(x) {
                        let k = choose|k: int|
                            0 <= k < new_list.len() && g.symbols@[(#[trigger] new_list[k]) as int]@
                                == x;
                        if k < old_list.len() {
                            assert(old_list[k] == new_list[k]);
                        }
                    }
                    if before.named(function as int).contains(x) {
                        let k = choose|k: int|
                            0 <= k < old_list.len() && before.symbols@[(
                            #[trigger] old_list[k]) as int]@ == x;
                        assert(new_list[k] == old_list[k]);
                    }
                    if x == target@ {
                        assert(new_list[old_list.len() as int] == t);
                    }
                }
            }
            assert forall|k: int| k != function && 0 <= k < symbols@.len() implies #[trigger] g.named(
                k,
            ) == before.named(k) by {
                assert(g.callees@[k] == before.callees@[k]);
                assert(g.named(k) =~= before.named(k));
            }
            assert(g@.calls =~= wanted) by {
                assert forall|s: Seq<char>| g@.calls.dom().contains(s) implies g@.calls[s]
                    == wanted[s] by {
                    assert(before.has(s));
                    if s != name {
                        assert(g.at(s) != function);
                        assert(g.named(g.at(s)) == before.named(before.at(s)));
                    }
                }
            }
            assert(g@.open =~= before@.open);
        }
        Graphed { index, symbols, defined, callees, open }
    }

    /// Reads what a disassembler printed into the graph, with a replacement
    /// character wherever it is not text.
    pub fn read_printed(self, printed: &Vec<u8>) -> (r: Graphed)
        ensures
            ({
                let lines = text::lines_of(bytes::lossy_text(printed@));
                r@ == read_lines(self@, lines, lines.len()).graph
            }),
    {
        let listing = bytes::lossy(printed);
        self.read(listing.as_str())
    }

    /// Reads one disassembly listing into the graph.
    pub fn read(self, listing: &str) -> (r: Graphed)
        ensures
            r@ == read_lines(self@, text::lines_of(listing@), text::lines_of(listing@).len()).graph,
    {
        let ghost from = self@;
        let lines = text::lines(listing);
        let ghost all = text::lines_of(listing@);
        let mut graph = self;
        let mut current: Option<usize> = None;
        let mut taking = false;
        let mut i: usize = 0;
        while i < lines.len()
            invariant
                i <= lines@.len(),
                all == text::texts(lines@),
                graph@ == read_lines(from, all, i as nat).graph,
                taking == read_lines(from, all, i as nat).taking,
                match current {
                    Some(f) => f < graph.symbols@.len() && graph.defined@[f as int]
                        && read_lines(from, all, i as nat).current == Some(
                        graph.symbols@[f as int]@,
                    ),
                    None => read_lines(from, all, i as nat).current is None,
                },
            decreases lines.len() - i,
        {
            let line = lines[i].as_str();
            assert(all[i as int] == lines@[i as int]@);
            let ghost at = read_lines(from, all, i as nat);
            proof {
                use_type_invariant(&graph);
            }
            match function_label(line) {
                Some(label) => {
                    let (made, f) = graph.define(label.as_str());
                    graph = made;
                    current = Some(f);
                    taking = false;
                },
                None => {
                    if let Some(function) = current {
                        match relocation_target(line) {
                            Some(target) => {
                                if taking {
                                    graph = graph.leave_open(function);
                                } else {
                                    graph = graph.link(function, target.as_str());
                                }
                            },
                            None => {
                                if let Some(word) = mnemonic(line) {
                                    taking = text::starts_with(word.as_str(), "lea");
                                }
                                if text::contains(line, "call") && text::contains(line, "*%") {
                                    graph = graph.leave_open(function);
                                }
                            },
                        }
                    }
                },
            }
            i += 1;
        }
        graph
    }
}

/// Whether one symbol is defined and names another as a call target.
pub open spec fn names(g: Compiled, from: Seq<char>, to: Seq<char>) -> bool {
    g.calls.dom().contains(from) && g.calls[from].contains(to)
}

/// Whether one symbol is reached from another in `n` calls.
pub open spec fn reaches_in(g: Compiled, from: Seq<char>, to: Seq<char>, n: nat) -> bool
    decreases n,
{
    if n == 0 {
        from == to
    } else {
        exists|mid: Seq<char>| #[trigger]
            names(g, mid, to) && reaches_in(g, from, mid, (n - 1) as nat)
    }
}

/// Whether one symbol is reached from another.
pub open spec fn reachable(g: Compiled, from: Seq<char>, to: Seq<char>) -> bool {
    exists|n: nat| reaches_in(g, from, to, n)
}

/// Whether a function reaches code the sweep cannot follow.
///
/// A symbol defined nowhere in the sweep that is no panic entry point could do
/// anything.
pub open spec fn reaches_unknown(g: Compiled, from: Seq<char>) -> bool {
    exists|at: Seq<char>| #[trigger]
        reachable(g, from, at) && (g.open.contains(at) || (!g.calls.dom().contains(at) && entry_of(
            demangled(at),
        ) is None))
}

/// Whether a function reaches a panic entry point that could stand for a set
/// of categories.
pub open spec fn reaches_entry(g: Compiled, from: Seq<char>, set: Set<Category>) -> bool {
    exists|at: Seq<char>| #[trigger]
        reachable(g, from, at) && !g.calls.dom().contains(at) && entry_of(demangled(at)) == Some(
            set,
        )
}

/// What one compiled function was seen to do.
#[derive(Debug)]
struct Facts {
    /// What each panic entry point reachable from it could stand for. A
    /// funnel serves several categories, so each entry point is kept as
    /// the set of them rather than folded into one.
    reaches: Vec<CategorySet>,
    /// Whether it reaches code the sweep cannot follow.
    open: bool,
}

/// What is known of one compiled function.
#[verifier::ext_equal]
pub struct FactsView {
    pub reaches: Seq<Set<Category>>,
    pub open: bool,
}

/// The sets of categories that a list holds.
pub open spec fn sets_of(list: Seq<CategorySet>) -> Seq<Set<Category>> {
    list.map_values(|s: CategorySet| s@)
}

impl View for Facts {
    type V = FactsView;

    closed spec fn view(&self) -> FactsView {
        FactsView { reaches: sets_of(self.reaches@), open: self.open }
    }
}

/// Whether facts are what a compiled function does.
pub open spec fn describes(facts: FactsView, g: Compiled, name: Seq<char>) -> bool {
    &&& facts.open == reaches_unknown(g, name)
    &&& forall|set: Set<Category>| #[trigger]
        facts.reaches.contains(set) <==> reaches_entry(g, name, set)
    &&& facts.reaches.no_duplicates()
}

/// Verdicts for every function the artifact defines.
pub struct Verdicts {
    index: Table,
    facts: Vec<Facts>,
}

impl View for Verdicts {
    type V = Map<Seq<char>, FactsView>;

    closed spec fn view(&self) -> Map<Seq<char>, FactsView> {
        Map::new(
            |s: Seq<char>| table::entries(self.index).dom().contains(s),
            |s: Seq<char>| self.facts@[table::entries(self.index)[s] as int]@,
        )
    }
}

impl Verdicts {
    #[verifier::type_invariant]
    spec fn wf(self) -> bool {
        forall|s: Seq<char>| #[trigger]
            table::entries(self.index).dom().contains(s) ==> table::entries(self.index)[s]
                < self.facts@.len()
    }

    /// Verdicts of an artifact that defines nothing.
    pub fn empty() -> (r: Verdicts)
        ensures
            r@.dom() == Set::<Seq<char>>::empty(),
    {
        let r = Verdicts { index: Table::new(), facts: Vec::new() };
        assert(r@.dom() =~= Set::<Seq<char>>::empty());
        r
    }
}

/// Adds a set to a list that does not hold it yet.
fn add_set(list: &mut Vec<CategorySet>, set: CategorySet)
    requires
        sets_of(old(list)@).no_duplicates(),
    ensures
        sets_of(final(list)@).no_duplicates(),
        forall|x: Set<Category>| #[trigger]
            sets_of(final(list)@).contains(x) <==> sets_of(old(list)@).contains(x) || x == set@,
{
    let ghost before = sets_of(list@);
    let mut i: usize = 0;
    while i < list.len()
        invariant
            i <= list@.len(),
            before == sets_of(list@),
            before.no_duplicates(),
            forall|k: int| 0 <= k < i ==> #[trigger] before[k] != set@,
        decreases list.len() - i,
    {
        assert(before[i as int] == list@[i as int]@);
        if list[i].same(set) {
            assert(before.contains(set@));
            return;
        }
        i += 1;
    }
    list.push(set);
    proof {
        let after = sets_of(list@);
        assert(after =~= before.push(set@));
        assert forall|x: Set<Category>| #[trigger] after.contains(x) <==> before.contains(x) || x
            == set@ by {
            if before.contains(x) {
                let k = choose|k: int| 0 <= k < before.len() && before[k] == x;
                assert(after[k] == x);
            }
            if x == set@ {
                assert(after[before.len() as int] == x);
            }
            if after.contains(x) {
                let k = choose|k: int| 0 <= k < after.len() && after[k] == x;
                if k < before.len() {
                    assert(before[k] == x);
                }
            }
        }
    }
}

impl Graphed {
    /// Whether a symbol itself is something the sweep cannot follow.
    spec fn stray(self, x: int) -> bool {
        self.open@[x] || (!self.defined@[x] && entry_of(demangled(self.symbols@[x]@)) is None)
    }

    /// Whether a symbol itself is a panic entry point for a set of categories.
    spec fn enters(self, x: int, set: Set<Category>) -> bool {
        !self.defined@[x] && entry_of(demangled(self.symbols@[x]@)) == Some(set)
    }

    /// What was seen is all that is reached, once it is closed under calls.
    proof fn closed_is_reached(self, seen: Seq<bool>, start: int, to: Seq<char>, n: nat)
        requires
            self.wf(),
            seen.len() == self.symbols@.len(),
            0 <= start < seen.len(),
            seen[start],
            forall|x: int, k: int|
                0 <= x < seen.len() && seen[x] && 0 <= k < self.callees@[x]@.len() ==> seen[(
                #[trigger] self.callees@[x]@[k]) as int],
            reaches_in(self@, self.symbols@[start]@, to, n),
        ensures
            self.has(to),
            seen[self.at(to)],
        decreases n,
    {
        if n > 0 {
            let mid = choose|mid: Seq<char>| #[trigger]
                names(self@, mid, to) && reaches_in(
                    self@,
                    self.symbols@[start]@,
                    mid,
                    (n - 1) as nat,
                );
            self.closed_is_reached(seen, start, mid, (n - 1) as nat);
            let m = self.at(mid);
            assert(self.named(m).contains(to));
            let k = choose|k: int|
                0 <= k < self.callees@[m]@.len() && self.symbols@[(
                #[trigger] self.callees@[m]@[k]) as int]@ == to;
            let x = self.callees@[m]@[k] as int;
            assert(seen[x]);
            assert(self.has(self.symbols@[x]@));
        }
    }

    /// What one function does.
    fn facts_of(&self, start: usize) -> (r: Facts)
        requires
            start < self.symbols@.len(),
            self.wf(),
        ensures
            describes(r@, self@, self.symbols@[start as int]@),
    {
        let ghost g = self@;
        let ghost name = self.symbols@[start as int]@;
        let n: usize = self.symbols.len();
        let mut facts = Facts { reaches: Vec::new(), open: false };
        let mut seen = lists::unset_flags(n);
        let mut stack: Vec<usize> = Vec::new();
        stack.push(start);
        proof {
            assert(reaches_in(g, name, name, 0));
            assert(stack@[0] == start);
        }
        // Each symbol is marked once, so the walk is bounded by the number of
        // symbols in the artifact.
        while stack.len() > 0
            invariant
                self.wf(),
                g == self@,
                n == self.symbols@.len(),
                start < n,
                name == self.symbols@[start as int]@,
                seen@.len() == n,
                seen@[start as int] || stack@.contains(start),
                forall|k: int|
                    0 <= k < stack@.len() ==> (#[trigger] stack@[k]) < n && reachable(
                        g,
                        name,
                        self.symbols@[stack@[k] as int]@,
                    ),
                forall|x: int|
                    0 <= x < n && #[trigger] seen@[x] ==> reachable(g, name, self.symbols@[x]@),
                forall|x: int, k: int|
                    0 <= x < n && seen@[x] && 0 <= k < self.callees@[x]@.len() ==> seen@[(
                    #[trigger] self.callees@[x]@[k]) as int] || stack@.contains(
                        self.callees@[x]@[k],
                    ),
                facts.open <==> exists|x: int| 0 <= x < n && #[trigger] seen@[x] && self.stray(x),
                sets_of(facts.reaches@).no_duplicates(),
                forall|set: Set<Category>| #[trigger]
                    sets_of(facts.reaches@).contains(set) <==> exists|x: int|
                        0 <= x < n && #[trigger] seen@[x] && self.enters(x, set),
            decreases lists::unset(seen@), stack@.len(),
        {
            let ghost line = stack@;
            let at: usize = stack.pop().unwrap();
            assert(line[line.len() - 1] == at);
            assert(stack@ =~= line.drop_last());
            proof {
                assert forall|x: usize| line.contains(x) implies x == at || #[trigger] stack@.contains(
                    x,
                ) by {
                    let k = choose|k: int| 0 <= k < line.len() && line[k] == x;
                    if k < stack@.len() {
                        assert(stack@[k] == x);
                    }
                }
                assert forall|k: int| 0 <= k < stack@.len() implies (#[trigger] stack@[k]) < n
                    && reachable(g, name, self.symbols@[stack@[k] as int]@) by {
                    assert(line[k] == stack@[k]);
                }
            }
            if !seen[at] {
                let ghost was = seen@;
                let ghost had = facts@;
                proof {
                    lists::setting_one(seen@, at as int);
                }
                seen[at] = true;
                if self.open[at] {
                    facts.open = true;
                }
                if !self.defined[at] {
                    // Defined nowhere in the sweep. A panic entry point is
                    // the whole story; anything else could do anything.
                    let plain = readable(self.symbols[at].as_str());
                    match entry_categories(plain.as_str()) {
                        Some(set) => {
                            let mut reaches = facts.reaches;
                            add_set(&mut reaches, set);
                            facts = Facts { reaches, open: facts.open };
                        },
                        None => {
                            facts.open = true;
                        },
                    }
                }
                proof {
                    assert(facts.open <==> exists|x: int|
                        0 <= x < n && #[trigger] seen@[x] && self.stray(x)) by {
                        if had.open {
                            let x = choose|x: int|
                                0 <= x < n && #[trigger] was[x] && self.stray(x);
                            assert(seen@[x]);
                        }
                        if self.stray(at as int) {
                            assert(seen@[at as int]);
                        }
                        if exists|x: int| 0 <= x < n && #[trigger] seen@[x] && self.stray(x) {
                            let x = choose|x: int|
                                0 <= x < n && #[trigger] seen@[x] && self.stray(x);
                            if x != at {
                                assert(was[x]);
                            }
                        }
                    }
                    assert forall|set: Set<Category>| #[trigger]
                        sets_of(facts.reaches@).contains(set) <==> exists|x: int|
                            0 <= x < n && #[trigger] seen@[x] && self.enters(x, set) by {
                        if had.reaches.contains(set) {
                            let x = choose|x: int|
                                0 <= x < n && #[trigger] was[x] && self.enters(x, set);
                            assert(seen@[x]);
                        }
                        if self.enters(at as int, set) {
                            assert(seen@[at as int]);
                        }
                        if exists|x: int| 0 <= x < n && #[trigger] seen@[x] && self.enters(x, set) {
                            let x = choose|x: int|
                                0 <= x < n && #[trigger] seen@[x] && self.enters(x, set);
                            if x != at {
                                assert(was[x]);
                            }
                        }
                    }
                }
                let mut k: usize = 0;
                let ghost callees = self.callees@[at as int]@;
                while k < self.callees[at].len()
                    invariant
                        self.wf(),
                        g == self@,
                        n == self.symbols@.len(),
                        at < n,
                        seen@.len() == n,
                        seen@[at as int],
                        seen@[start as int] || stack@.contains(start),
                        callees == self.callees@[at as int]@,
                        k <= callees.len(),
                        reachable(g, name, self.symbols@[at as int]@),
                        forall|m: int|
                            0 <= m < stack@.len() ==> (#[trigger] stack@[m]) < n && reachable(
                                g,
                                name,
                                self.symbols@[stack@[m] as int]@,
                            ),
                        forall|x: int, m: int|
                            0 <= x < n && seen@[x] && x != at && 0 <= m < self.callees@[x]@.len()
                                ==> seen@[(#[trigger] self.callees@[x]@[m]) as int]
                                || stack@.contains(self.callees@[x]@[m]),
                        forall|m: int| 0 <= m < k ==> stack@.contains(#[trigger] callees[m]),
                    decreases callees.len() - k,
                {
                    let callee = self.callees[at][k];
                    let ghost before = stack@;
                    stack.push(callee);
                    proof {
                        assert(callees[k as int] == callee);
                        assert(self.callees@[at as int]@[k as int] < n);
                        let from = self.symbols@[at as int]@;
                        let to = self.symbols@[callee as int]@;
                        assert(self.has(from));
                        assert(self.named(at as int).contains(to));
                        assert(self.defined@[at as int]);
                        assert(g.calls.dom().contains(from));
                        let m = choose|m: nat| reaches_in(g, name, from, m);
                        assert(names(g, from, to));
                        assert(reaches_in(g, name, to, m + 1));
                        assert forall|x: usize| before.contains(x) implies #[trigger] stack@.contains(
                            x,
                        ) by {
                            let j = choose|j: int| 0 <= j < before.len() && before[j] == x;
                            assert(stack@[j] == x);
                        }
                        assert(stack@[before.len() as int] == callee);
                    }
                    k += 1;
                }
                proof {
                    assert forall|x: int, m: int|
                        0 <= x < n && seen@[x] && 0 <= m < self.callees@[x]@.len() implies seen@[(
                    #[trigger] self.callees@[x]@[m]) as int] || stack@.contains(
                        self.callees@[x]@[m],
                    ) by {
                        if x == at {
                            assert(stack@.contains(callees[m]));
                        }
                    }
                }
            }
        }
        proof {
            assert(facts.open == reaches_unknown(g, name)) by {
                if facts.open {
                    let x = choose|x: int| 0 <= x < n && #[trigger] seen@[x] && self.stray(x);
                    let at = self.symbols@[x]@;
                    assert(self.has(at) && self.at(at) == x);
                    assert(reachable(g, name, at));
                }
                if reaches_unknown(g, name) {
                    let at = choose|at: Seq<char>| #[trigger]
                        reachable(g, name, at) && (g.open.contains(at) || (
                        !g.calls.dom().contains(at) && entry_of(demangled(at)) is None));
                    let m = choose|m: nat| reaches_in(g, name, at, m);
                    self.closed_is_reached(seen@, start as int, at, m);
                    assert(seen@[self.at(at)] && self.stray(self.at(at)));
                }
            }
            assert forall|set: Set<Category>| #[trigger]
                sets_of(facts.reaches@).contains(set) <==> reaches_entry(g, name, set) by {
                if sets_of(facts.reaches@).contains(set) {
                    let x = choose|x: int| 0 <= x < n && #[trigger] seen@[x] && self.enters(x, set);
                    let at = self.symbols@[x]@;
                    assert(self.has(at) && self.at(at) == x);
                    assert(reachable(g, name, at));
                }
                if reaches_entry(g, name, set) {
                    let at = choose|at: Seq<char>| #[trigger]
                        reachable(g, name, at) && !g.calls.dom().contains(at) && entry_of(
                            demangled(at),
                        ) == Some(set);
                    let m = choose|m: nat| reaches_in(g, name, at, m);
                    self.closed_is_reached(seen@, start as int, at, m);
                    assert(seen@[self.at(at)] && self.enters(self.at(at), set));
                }
            }
        }
        facts
    }

    /// Settles what every defined function reaches.
    pub fn resolve(self) -> (r: Verdicts)
        ensures
            r@.dom() == self@.calls.dom(),
            forall|name: Seq<char>| #[trigger]
                r@.dom().contains(name) ==> describes(r@[name], self@, name),
    {
        proof {
            use_type_invariant(&self);
        }
        let ghost g = self@;
        let mut index = Table::new();
        let mut facts: Vec<Facts> = Vec::new();
        let mut i: usize = 0;
        while i < self.symbols.len()
            invariant
                self.wf(),
                g == self@,
                i <= self.symbols@.len(),
                forall|s: Seq<char>| #[trigger]
                    table::entries(index).dom().contains(s) <==> self.has(s) && self.at(s) < i
                        && self.defined@[self.at(s)],
                forall|s: Seq<char>| #[trigger]
                    table::entries(index).dom().contains(s) ==> table::entries(index)[s]
                        < facts@.len() && describes(
                        facts@[table::entries(index)[s] as int]@,
                        g,
                        s,
                    ),
            decreases self.symbols.len() - i,
        {
            if self.defined[i] {
                let ghost name = self.symbols@[i as int]@;
                let ghost had = facts@;
                let ghost was = table::entries(index);
                assert(self.has(name) && self.at(name) == i);
                let made = self.facts_of(i);
                index.insert(self.symbols[i].clone(), facts.len());
                facts.push(made);
                proof {
                    assert forall|s: Seq<char>| #[trigger]
                        table::entries(index).dom().contains(s) implies table::entries(index)[s]
                        < facts@.len() && describes(
                        facts@[table::entries(index)[s] as int]@,
                        g,
                        s,
                    ) by {
                        if s != name {
                            assert(was.dom().contains(s));
                            assert(had[was[s] as int] == facts@[was[s] as int]);
                        }
                    }
                    assert forall|s: Seq<char>| #[trigger]
                        table::entries(index).dom().contains(s) <==> self.has(s) && self.at(s) < i
                            + 1 && self.defined@[self.at(s)] by {
                        assert(was.dom().contains(s) <==> self.has(s) && self.at(s) < i
                            && self.defined@[self.at(s)]);
                        if self.has(s) && self.at(s) == i {
                            assert(s == name);
                        }
                    }
                }
            } else {
                assert forall|s: Seq<char>| #[trigger]
                    table::entries(index).dom().contains(s) <==> self.has(s) && self.at(s) < i + 1
                        && self.defined@[self.at(s)] by {
                    assert(table::entries(index).dom().contains(s) <==> self.has(s) && self.at(s)
                        < i && self.defined@[self.at(s)]);
                }
            }
            i += 1;
        }
        let r = Verdicts { index, facts };
        proof {
            assert(r@.dom() =~= g.calls.dom()) by {
                assert forall|s: Seq<char>| r@.dom().contains(s) <==> g.calls.dom().contains(s) by {
                    assert(table::entries(index).dom().contains(s) <==> self.has(s) && self.at(s)
                        < i && self.defined@[self.at(s)]);
                    if self.has(s) {
                        assert(self.at(s) < self.symbols@.len());
                    }
                }
            }
            assert forall|name: Seq<char>| #[trigger] r@.dom().contains(name) implies describes(
                r@[name],
                g,
                name,
            ) by {
                assert(table::entries(index).dom().contains(name));
            }
        }
        r
    }
}

/// Whether a symbol sweep can settle a category at all.
///
/// A reference count overflow aborts through an inlined trap instruction, and
/// the assumed categories name missing knowledge rather than an entry point,
/// so a symbol sweep can neither confirm nor rule either out.
pub open spec fn leaves_symbol(c: Category) -> bool {
    !category::unread().contains(c) && c != Category::RefCountOverflow
}

/// The verdict for one function and category.
pub open spec fn verdict(facts: Map<Seq<char>, FactsView>, key: Seq<char>, c: Category) -> Verdict {
    if !leaves_symbol(c) || !facts.dom().contains(key) {
        Verdict::Unverified
    } else if exists|k: int|
        0 <= k < facts[key].reaches.len() && (#[trigger] facts[key].reaches[k]).contains(c) {
        Verdict::Confirmed
    } else if facts[key].open {
        Verdict::Unverified
    } else {
        Verdict::Absent
    }
}

/// What of the first `n` entry points a function reaches was never reported:
/// leaving aside what the policy assumes impossible, none of what it could
/// stand for was.
pub open spec fn unreported(
    reaches: Seq<Set<Category>>,
    reported: Set<Category>,
    assumed: Set<Category>,
    n: nat,
) -> Seq<Set<Category>>
    decreases n,
{
    if n == 0 {
        Seq::empty()
    } else {
        let rest = unreported(reaches, reported, assumed, (n - 1) as nat);
        let set = reaches[n - 1].difference(assumed);
        if set != Set::<Category>::empty() && set.intersect(reported) == Set::<Category>::empty() {
            rest.push(set)
        } else {
            rest
        }
    }
}

/// What the artifact reaches from a function that the analysis did not report
/// it with.
///
/// A function reported with a category that stands for code the analysis could
/// not read is left alone, since that admits anything already.
pub open spec fn missing(
    facts: Map<Seq<char>, FactsView>,
    body: BodyView,
    reported: Set<Category>,
    assumed: Set<Category>,
) -> Seq<Set<Category>> {
    if body.local && facts.dom().contains(body.key) && reported.intersect(category::unread())
        == Set::<Category>::empty() {
        unreported(facts[body.key].reaches, reported, assumed, facts[body.key].reaches.len())
    } else {
        Seq::empty()
    }
}

/// A function the compiled artifact reaches a panic from that the analysis
/// did not report it with.
#[derive(Debug)]
pub struct Missed {
    /// The function.
    pub id: FuncId,
    /// What each entry point reached could stand for, none of which the
    /// analysis reported.
    pub reaches: Vec<CategorySet>,
}

impl Verdicts {
    /// The verdict for one function and category.
    pub fn of(&self, key: &FuncKey, category: Category) -> (r: Verdict)
        ensures
            r == verdict(self@, key@, category),
    {
        proof {
            use_type_invariant(self);
        }
        if CategorySet::assumed().contains(category) || category == Category::RefCountOverflow {
            return Verdict::Unverified;
        }
        match self.index.get(key.0.as_str()) {
            Some(at) => {
                let facts = &self.facts[at];
                assert(table::entries(self.index).dom().contains(key@));
                assert(self@[key@] == facts@);
                let mut i: usize = 0;
                while i < facts.reaches.len()
                    invariant
                        i <= facts.reaches@.len(),
                        self@[key@] == facts@,
                        self@.dom().contains(key@),
                        leaves_symbol(category),
                        forall|k: int|
                            0 <= k < i ==> !(#[trigger] self@[key@].reaches[k]).contains(category),
                    decreases facts.reaches.len() - i,
                {
                    assert(self@[key@].reaches[i as int] == facts.reaches@[i as int]@);
                    if facts.reaches[i].contains(category) {
                        return Verdict::Confirmed;
                    }
                    i += 1;
                }
                if facts.open {
                    Verdict::Unverified
                } else {
                    Verdict::Absent
                }
            },
            None => Verdict::Unverified,
        }
    }

    /// What the artifact reaches from one function that the analysis did not
    /// report it with.
    fn missed_of(&self, graph: &Graph, solution: &Solution, id: FuncId) -> (r: Vec<CategorySet>)
        requires
            solution.states().len() == graph@.bodies.len(),
            id.0 < graph@.bodies.len(),
        ensures
            sets_of(r@) == missing(
                self@,
                graph@.bodies[id.0 as int],
                solution.states()[id.0 as int].enabled,
                solution.spec_policy().suppressed@,
            ),
    {
        proof {
            use_type_invariant(self);
        }
        let mut out: Vec<CategorySet> = Vec::new();
        assert(sets_of(out@) =~= Seq::empty());
        let body = graph.body(id);
        if !body.local {
            return out;
        }
        let assumed = solution.policy().suppressed;
        let reported = solution.enabled(id);
        match self.index.get(body.key.0.as_str()) {
            Some(at) => {
                let facts = &self.facts[at];
                assert(table::entries(self.index).dom().contains(body@.key));
                assert(self@[body@.key] == facts@);
                if !reported.intersection(CategorySet::assumed()).is_empty() {
                    return out;
                }
                let ghost reaches = facts@.reaches;
                let mut i: usize = 0;
                while i < facts.reaches.len()
                    invariant
                        i <= facts.reaches@.len(),
                        reaches == facts@.reaches,
                        sets_of(out@) == unreported(reaches, reported@, assumed@, i as nat),
                    decreases facts.reaches.len() - i,
                {
                    assert(reaches[i as int] == facts.reaches@[i as int]@);
                    let set = facts.reaches[i].difference(assumed);
                    if !set.is_empty() && set.intersection(reported).is_empty() {
                        let ghost was = out@;
                        out.push(set);
                        assert(sets_of(out@) =~= sets_of(was).push(set@));
                    }
                    i += 1;
                }
                out
            },
            None => out,
        }
    }

    /// The functions the artifact reaches a panic from that the analysis
    /// reported clean of it.
    ///
    /// This is the sweep read the other way round. A finding is looked up
    /// in the artifact to confirm it; here every function the artifact
    /// defines is looked up in the report, so a panic the analysis settled
    /// that the optimizer nonetheless kept is surfaced rather than hidden
    /// behind the proof. An entry point is missed when none of what it
    /// could stand for was reported, leaving aside what the policy assumes
    /// impossible, since that was never asked for, and leaving alone a
    /// function reported with a category that stands for code the analysis
    /// could not read, since that admits anything already.
    ///
    /// What is listed is worth a look rather than a conclusion: the artifact
    /// reads a function with its callees folded in, so a check a callee
    /// keeps for other callers counts against this one, a panic caught
    /// inside the function still names its entry point, and a check the
    /// optimizer could not settle is kept whether or not it can fail.
    pub fn missed(&self, graph: &Graph, solution: &Solution) -> (r: Vec<Missed>)
        requires
            solution.states().len() == graph@.bodies.len(),
        ensures
            forall|k: int|
                0 <= k < r@.len() ==> {
                    &&& (#[trigger] r@[k]).id.0 < graph@.bodies.len()
                    &&& sets_of(r@[k].reaches@) == missing(
                        self@,
                        graph@.bodies[r@[k].id.0 as int],
                        solution.states()[r@[k].id.0 as int].enabled,
                        solution.spec_policy().suppressed@,
                    )
                    &&& r@[k].reaches@.len() > 0
                },
            forall|i: int|
                0 <= i < graph@.bodies.len() && (#[trigger] missing(
                    self@,
                    graph@.bodies[i],
                    solution.states()[i].enabled,
                    solution.spec_policy().suppressed@,
                )).len() > 0 ==> exists|k: int| 0 <= k < r@.len() && (#[trigger] r@[k]).id.0 == i,
            forall|a: int, b: int|
                0 <= a < b < r@.len() ==> graph::alphabetical(
                    graph@.bodies,
                    (#[trigger] r@[a]).id.0 as int,
                    (#[trigger] r@[b]).id.0 as int,
                ),
    {
        let ghost bodies = graph@.bodies;
        let ghost lost = |i: int|
            missing(
                self@,
                bodies[i],
                solution.states()[i].enabled,
                solution.spec_policy().suppressed@,
            );
        let n = graph.len();
        let mut found: Vec<usize> = Vec::new();
        let mut i: usize = 0;
        while i < n
            invariant
                i <= n == bodies.len() <= u32::MAX,
                bodies == graph@.bodies,
                solution.states().len() == bodies.len(),
                lost == (|i: int|
                    missing(
                        self@,
                        bodies[i],
                        solution.states()[i].enabled,
                        solution.spec_policy().suppressed@,
                    )),
                forall|a: int, b: int|
                    0 <= a < b < found@.len() ==> #[trigger] found@[a] < #[trigger] found@[b],
                forall|a: int|
                    0 <= a < found@.len() ==> (#[trigger] found@[a]) < i && lost(
                        found@[a] as int,
                    ).len() > 0,
                forall|x: int|
                    0 <= x < i && (#[trigger] lost(x)).len() > 0 ==> found@.contains(x as usize),
            decreases n - i,
        {
            let ghost was = found@;
            let reaches = self.missed_of(graph, solution, FuncId::from_index(i));
            assert(sets_of(reaches@) == lost(i as int));
            if reaches.len() > 0 {
                found.push(i);
            }
            assert forall|x: int| 0 <= x < i + 1 && (#[trigger] lost(x)).len() > 0 implies found@.contains(
                x as usize,
            ) by {
                if x < i {
                    let k = choose|k: int| 0 <= k < was.len() && was[k] == x as usize;
                    assert(found@[k] == x as usize);
                } else {
                    assert(found@[found@.len() - 1] == x as usize);
                }
            }
            i += 1;
        }
        let order = graph::Alphabet { graph };
        let sorted = lists::sort(&order, &found);
        assert forall|k: int| 0 <= k < sorted@.len() implies (#[trigger] sorted@[k]) < n && lost(
            sorted@[k] as int,
        ).len() > 0 by {
            assert(sorted@.contains(sorted@[k]));
            assert(found@.contains(sorted@[k]));
            let m = choose|m: int| 0 <= m < found@.len() && found@[m] == sorted@[k];
            assert(found@[m] < n);
        }
        let mut out: Vec<Missed> = Vec::new();
        let mut k: usize = 0;
        while k < sorted.len()
            invariant
                k <= sorted@.len(),
                n == bodies.len() <= u32::MAX,
                bodies == graph@.bodies,
                solution.states().len() == bodies.len(),
                lost == (|i: int|
                    missing(
                        self@,
                        bodies[i],
                        solution.states()[i].enabled,
                        solution.spec_policy().suppressed@,
                    )),
                forall|m: int|
                    0 <= m < sorted@.len() ==> (#[trigger] sorted@[m]) < n && lost(
                        sorted@[m] as int,
                    ).len() > 0,
                out@.len() == k,
                forall|m: int|
                    0 <= m < k ==> (#[trigger] out@[m]).id.0 == sorted@[m] && sets_of(
                        out@[m].reaches@,
                    ) == lost(sorted@[m] as int) && out@[m].reaches@.len() > 0,
            decreases sorted.len() - k,
        {
            let id = FuncId::from_index(sorted[k]);
            assert(sorted@[k as int] < n);
            let reaches = self.missed_of(graph, solution, id);
            assert(sets_of(reaches@) == lost(sorted@[k as int] as int));
            assert(sets_of(reaches@).len() == reaches@.len());
            out.push(Missed { id, reaches });
            k += 1;
        }
        proof {
            assert forall|x: int|
                0 <= x < bodies.len() && (#[trigger] missing(
                    self@,
                    bodies[x],
                    solution.states()[x].enabled,
                    solution.spec_policy().suppressed@,
                )).len() > 0 implies exists|m: int|
                0 <= m < out@.len() && (#[trigger] out@[m]).id.0 == x by {
                assert(lost(x).len() > 0);
                assert(found@.contains(x as usize));
                assert(sorted@.contains(x as usize));
                let m = choose|m: int| 0 <= m < sorted@.len() && sorted@[m] == x as usize;
                assert(out@[m].id.0 == x);
            }
            assert forall|a: int, b: int| 0 <= a < b < out@.len() implies graph::alphabetical(
                bodies,
                (#[trigger] out@[a]).id.0 as int,
                (#[trigger] out@[b]).id.0 as int,
            ) by {
                assert(order.precedes(sorted@[a], sorted@[b]));
            }
        }
        out
    }
}

/// Whether a function comes, through calls of functions that the artifact
/// defines, to an entry point that it does not define and that could stand for
/// a category.
pub open spec fn comes_to(g: Compiled, name: Seq<char>, c: Category) -> bool {
    exists|at: Seq<char>| #[trigger]
        reachable(g, name, at) && !g.calls.dom().contains(at) && (entry_of(
            demangled(at),
        ) matches Some(set) && set.contains(c))
}

/// A category that the artifact bears out is one whose entry point is reached,
/// and every such category is borne out, but for those that leave no symbol: a
/// count that overflows, and what stands for code that was not read.
pub proof fn what_is_confirmed_is_reached(
    facts: Map<Seq<char>, FactsView>,
    key: Seq<char>,
    g: Compiled,
    c: Category,
)
    requires
        facts.dom().contains(key),
        describes(facts[key], g, key),
    ensures
        verdict(facts, key, c) is Confirmed <==> comes_to(g, key, c) && !(c is RefCountOverflow
            || c is Unknown || c is Foreign || c is DynCall || c is FnPointer
            || c is GenericBound),
{
    let reaches = facts[key].reaches;
    if exists|k: int| 0 <= k < reaches.len() && (#[trigger] reaches[k]).contains(c) {
        let k = choose|k: int| 0 <= k < reaches.len() && (#[trigger] reaches[k]).contains(c);
        assert(reaches.contains(reaches[k]));
        assert(reaches_entry(g, key, reaches[k]));
        assert(comes_to(g, key, c));
    }
    if comes_to(g, key, c) {
        let at = choose|at: Seq<char>| #[trigger]
            reachable(g, key, at) && !g.calls.dom().contains(at) && (entry_of(
                demangled(at),
            ) matches Some(set) && set.contains(c));
        let set = entry_of(demangled(at))->Some_0;
        assert(reaches_entry(g, key, set));
        assert(reaches.contains(set));
        let k = choose|k: int| 0 <= k < reaches.len() && reaches[k] == set;
        assert(reaches[k].contains(c));
    }
}

/// A category is said to be absent only where all that the function reaches
/// could be followed and none of it could stand for the category.
pub proof fn what_is_absent_is_not_reached(
    facts: Map<Seq<char>, FactsView>,
    key: Seq<char>,
    g: Compiled,
    c: Category,
    at: Seq<char>,
)
    requires
        facts.dom().contains(key),
        describes(facts[key], g, key),
        verdict(facts, key, c) is Absent,
        reachable(g, key, at),
    ensures
        !g.open.contains(at),
        !g.calls.dom().contains(at) ==> (entry_of(demangled(at)) matches Some(set)
            && !set.contains(c)),
{
    what_is_confirmed_is_reached(facts, key, g, c);
    assert(!reaches_unknown(g, key));
    assert(!comes_to(g, key, c));
}

/// What was not compiled is neither borne out nor ruled out, and neither is
/// what leaves no symbol.
pub proof fn what_cannot_be_seen_is_unverified(
    facts: Map<Seq<char>, FactsView>,
    key: Seq<char>,
    c: Category,
)
    requires
        !facts.dom().contains(key) || c is RefCountOverflow || c is Unknown || c is Foreign
            || c is DynCall || c is FnPointer || c is GenericBound,
    ensures
        verdict(facts, key, c) is Unverified,
{
}

/// Whether an entry point was passed over by a report: setting aside what is
/// assumed impossible, it could stand for something and for nothing reported.
pub open spec fn passed_over(set: Set<Category>, reported: Set<Category>, assumed: Set<Category>) -> bool {
    &&& exists|c: Category| set.contains(c) && !assumed.contains(c)
    &&& forall|c: Category| #[trigger] set.contains(c) && !assumed.contains(c) ==> !reported.contains(c)
}

proof fn passed_over_are_listed(
    reaches: Seq<Set<Category>>,
    reported: Set<Category>,
    assumed: Set<Category>,
    n: nat,
)
    requires
        n <= reaches.len(),
    ensures
        forall|k: int|
            0 <= k < n && passed_over(#[trigger] reaches[k], reported, assumed) ==> unreported(
                reaches,
                reported,
                assumed,
                n,
            ).contains(reaches[k].difference(assumed)),
        forall|m: int|
            0 <= m < unreported(reaches, reported, assumed, n).len() ==> listed_from(
                reaches,
                reported,
                assumed,
                n,
                #[trigger] unreported(reaches, reported, assumed, n)[m],
            ),
    decreases n,
{
    if n > 0 {
        passed_over_are_listed(reaches, reported, assumed, (n - 1) as nat);
        let rest = unreported(reaches, reported, assumed, (n - 1) as nat);
        let now = unreported(reaches, reported, assumed, n);
        let set = reaches[n - 1].difference(assumed);
        let kept = set != Set::<Category>::empty() && set.intersect(reported) == Set::<
            Category,
        >::empty();
        assert(kept <==> passed_over(reaches[n - 1], reported, assumed)) by {
            if kept {
                assert(exists|c: Category| set.contains(c)) by {
                    if forall|c: Category| !set.contains(c) {
                        assert(set =~= Set::<Category>::empty());
                    }
                }
                let c = choose|c: Category| set.contains(c);
                assert(reaches[n - 1].contains(c) && !assumed.contains(c));
                assert forall|c: Category| #[trigger]
                    reaches[n - 1].contains(c) && !assumed.contains(c) implies !reported.contains(
                    c,
                ) by {
                    assert(!set.intersect(reported).contains(c));
                }
            }
            if passed_over(reaches[n - 1], reported, assumed) {
                let c = choose|c: Category| reaches[n - 1].contains(c) && !assumed.contains(c);
                assert(set.contains(c));
                assert(set.intersect(reported) =~= Set::<Category>::empty());
            }
        }
        assert forall|k: int| 0 <= k < n && passed_over(
            #[trigger] reaches[k],
            reported,
            assumed,
        ) implies now.contains(reaches[k].difference(assumed)) by {
            if k < n - 1 {
                let want = reaches[k].difference(assumed);
                let m = choose|m: int| 0 <= m < rest.len() && rest[m] == want;
                assert(now[m] == want);
            } else {
                assert(now[rest.len() as int] == set);
            }
        }
        assert forall|m: int| 0 <= m < now.len() implies listed_from(
            reaches,
            reported,
            assumed,
            n,
            #[trigger] now[m],
        ) by {
            if m < rest.len() {
                assert(now[m] == rest[m]);
                let k = choose|k: int|
                    0 <= k < n - 1 && passed_over(#[trigger] reaches[k], reported, assumed)
                        && reaches[k].difference(assumed) == rest[m];
                assert(passed_over(reaches[k], reported, assumed));
            } else {
                assert(passed_over(reaches[n - 1], reported, assumed));
            }
        }
    }
}

/// Whether a set is what is left of one of the first `n` entry points that was
/// passed over.
pub open spec fn listed_from(
    reaches: Seq<Set<Category>>,
    reported: Set<Category>,
    assumed: Set<Category>,
    n: nat,
    set: Set<Category>,
) -> bool {
    exists|k: int|
        0 <= k < n && passed_over(#[trigger] reaches[k], reported, assumed)
            && reaches[k].difference(assumed) == set
}

/// What a function is said to reach and not report is what it reaches and does
/// not report: every entry point that was passed over is listed, and nothing
/// else is.
pub proof fn what_is_missing_was_passed_over(
    facts: Map<Seq<char>, FactsView>,
    body: BodyView,
    reported: Set<Category>,
    assumed: Set<Category>,
    set: Set<Category>,
)
    requires
        body.local,
        facts.dom().contains(body.key),
        forall|c: Category| #[trigger]
            reported.contains(c) ==> !(c is Unknown || c is Foreign || c is DynCall
                || c is FnPointer || c is GenericBound),
    ensures
        missing(facts, body, reported, assumed).contains(set) <==> listed_from(
            facts[body.key].reaches,
            reported,
            assumed,
            facts[body.key].reaches.len(),
            set,
        ),
{
    let reaches = facts[body.key].reaches;
    assert(reported.intersect(category::unread()) =~= Set::<Category>::empty());
    passed_over_are_listed(reaches, reported, assumed, reaches.len());
    let list = missing(facts, body, reported, assumed);
    if list.contains(set) {
        let m = choose|m: int| 0 <= m < list.len() && list[m] == set;
        assert(listed_from(reaches, reported, assumed, reaches.len(), list[m]));
    }
    if listed_from(reaches, reported, assumed, reaches.len(), set) {
        let k = choose|k: int|
            0 <= k < reaches.len() && passed_over(#[trigger] reaches[k], reported, assumed)
                && reaches[k].difference(assumed) == set;
        assert(passed_over(reaches[k], reported, assumed));
    }
}

/// A function of another crate, one that was not compiled and one reported
/// with what stands for code that was not read miss nothing.
pub proof fn what_admits_anything_misses_nothing(
    facts: Map<Seq<char>, FactsView>,
    body: BodyView,
    reported: Set<Category>,
    assumed: Set<Category>,
    c: Category,
)
    requires
        !body.local || !facts.dom().contains(body.key) || (reported.contains(c) && (c is Unknown
            || c is Foreign || c is DynCall || c is FnPointer || c is GenericBound)),
    ensures
        missing(facts, body, reported, assumed).len() == 0,
{
    if reported.contains(c) && category::unread().contains(c) {
        assert(reported.intersect(category::unread()).contains(c));
    }
}

/// A listing read one line further keeps every call it had, and every function
/// that it could not follow, and adds to no function but the one being read.
pub proof fn reading_on_keeps_what_was_read(at: Reading, line: Seq<char>, from: Seq<char>, to: Seq<char>)
    requires
        at.current matches Some(function) ==> at.graph.calls.dom().contains(function),
    ensures
        names(at.graph, from, to) ==> names(read_line(at, line).graph, from, to),
        at.graph.open.contains(from) ==> read_line(at, line).graph.open.contains(from),
        names(read_line(at, line).graph, from, to) && !names(at.graph, from, to) ==> at.current
            == Some(from) && !at.taking && relocation_of(line) == Some(to) && label_of(line) is None,
        read_line(at, line).graph.open.contains(from) && !at.graph.open.contains(from)
            ==> at.current == Some(from),
        read_line(at, line).current matches Some(function) ==> read_line(
            at,
            line,
        ).graph.calls.dom().contains(function),
{
}

/// A call that a line names is read, and an address that is taken is not read
/// as a call but leaves the function open.
pub proof fn a_call_is_read(at: Reading, line: Seq<char>, function: Seq<char>, target: Seq<char>)
    requires
        at.current == Some(function),
        at.graph.calls.dom().contains(function),
        label_of(line) is None,
        relocation_of(line) == Some(target),
    ensures
        at.taking ==> read_line(at, line).graph.open.contains(function) && read_line(
            at,
            line,
        ).graph.calls == at.graph.calls,
        !at.taking ==> names(read_line(at, line).graph, function, target),
{
}

} // verus!
