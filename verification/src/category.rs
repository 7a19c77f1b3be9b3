//! The panic taxonomy and the bitset used to propagate it.
//!
//! Every panic the analysis can observe is reduced to exactly one
//! [`Category`]. Categories are the unit of suppression: the user asks for a
//! set of categories to be assumed impossible, and the solver removes them
//! before propagation rather than filtering the finished report.

use std::str::FromStr;

use vstd::prelude::*;

use crate::{lists, text};

verus! {

/// How a panic terminates the process or unwinds the stack.
///
/// The distinction matters for suppression. Only an unwinding panic activates
/// the cleanup blocks of its caller, so an aborting sink cannot be the cause
/// of a downstream drop panic.
#[derive(Debug, Clone, Copy, PartialEq, Eq, Hash, Structural)]
pub enum Termination {
    /// Unwinds the stack, running drop glue on the way out.
    Unwind,
    /// Terminates the process without unwinding.
    Abort,
}

/// A kind of panic, as reported to the user.
///
/// The order is stable because it indexes into [`CategorySet`].
#[derive(Debug, Clone, Copy, PartialEq, Eq, Hash, PartialOrd, Ord, Structural)]
pub enum Category {
    /// Slice or array index out of bounds.
    Index,
    /// Arithmetic overflow. Only present when overflow checks are enabled.
    Overflow,
    /// Integer division by zero.
    DivideByZero,
    /// Integer remainder by zero.
    RemainderByZero,
    /// `Option::unwrap`, `Result::unwrap`, `expect`, and friends.
    Unwrap,
    /// `panic!`, `assert!`, `unreachable!`, `todo!`, and friends.
    Explicit,
    /// Slicing a `str` at a non-character boundary.
    StrBoundary,
    /// A `RefCell` borrow conflict.
    Borrow,
    /// A poisoned `Mutex` or `RwLock`.
    Poison,
    /// A collection grew past the maximum representable capacity.
    CapacityOverflow,
    /// The allocator could not satisfy a request.
    AllocFailure,
    /// An `Rc` or `Arc` strong count overflowed.
    RefCountOverflow,
    /// A panic raised from inside the formatting machinery.
    Fmt,
    /// A null pointer was dereferenced.
    NullDeref,
    /// A reference was constructed from a misaligned pointer.
    MisalignedRef,
    /// A panic whose origin the analysis could not classify.
    Unknown,
    /// A standard library precondition check, present only in a build that
    /// has undefined behaviour checks turned on.
    UbCheck,
    /// A call into foreign code, which has no Rust body to read.
    Foreign,
    /// A dynamic call, whose target set the analysis does not resolve.
    DynCall,
    /// A call through a function pointer, whose target is unknown.
    FnPointer,
    /// A call that resolves only once a caller supplies concrete generic
    /// arguments, so what it reaches is the caller's choice.
    GenericBound,
}

/// Every category, in order.
pub const ALL: [Category; 21] = [
    Category::Index,
    Category::Overflow,
    Category::DivideByZero,
    Category::RemainderByZero,
    Category::Unwrap,
    Category::Explicit,
    Category::StrBoundary,
    Category::Borrow,
    Category::Poison,
    Category::CapacityOverflow,
    Category::AllocFailure,
    Category::RefCountOverflow,
    Category::Fmt,
    Category::NullDeref,
    Category::MisalignedRef,
    Category::Unknown,
    Category::UbCheck,
    Category::Foreign,
    Category::DynCall,
    Category::FnPointer,
    Category::GenericBound,
];

impl Category {
    /// The place of a category in [`ALL`].
    pub open spec fn place(self) -> u32 {
        match self {
            Category::Index => 0,
            Category::Overflow => 1,
            Category::DivideByZero => 2,
            Category::RemainderByZero => 3,
            Category::Unwrap => 4,
            Category::Explicit => 5,
            Category::StrBoundary => 6,
            Category::Borrow => 7,
            Category::Poison => 8,
            Category::CapacityOverflow => 9,
            Category::AllocFailure => 10,
            Category::RefCountOverflow => 11,
            Category::Fmt => 12,
            Category::NullDeref => 13,
            Category::MisalignedRef => 14,
            Category::Unknown => 15,
            Category::UbCheck => 16,
            Category::Foreign => 17,
            Category::DynCall => 18,
            Category::FnPointer => 19,
            Category::GenericBound => 20,
        }
    }

    /// The name a category goes by.
    pub open spec fn spec_name(self) -> Seq<char> {
        match self {
            Category::Index => "index"@,
            Category::Overflow => "overflow"@,
            Category::DivideByZero => "divide-by-zero"@,
            Category::RemainderByZero => "remainder-by-zero"@,
            Category::Unwrap => "unwrap"@,
            Category::Explicit => "explicit"@,
            Category::StrBoundary => "str-boundary"@,
            Category::Borrow => "borrow"@,
            Category::Poison => "poison"@,
            Category::CapacityOverflow => "capacity-overflow"@,
            Category::AllocFailure => "alloc-failure"@,
            Category::RefCountOverflow => "refcount-overflow"@,
            Category::Fmt => "fmt"@,
            Category::NullDeref => "null-deref"@,
            Category::MisalignedRef => "misaligned-ref"@,
            Category::Unknown => "unknown"@,
            Category::UbCheck => "ub-check"@,
            Category::Foreign => "foreign"@,
            Category::DynCall => "dyn-call"@,
            Category::FnPointer => "fn-pointer"@,
            Category::GenericBound => "generic-bound"@,
        }
    }

    /// What a category is described as.
    pub open spec fn spec_describe(self) -> Seq<char> {
        match self {
            Category::Index => "slice or array index out of bounds"@,
            Category::Overflow => "arithmetic overflow"@,
            Category::DivideByZero => "integer division by zero"@,
            Category::RemainderByZero => "integer remainder by zero"@,
            Category::Unwrap => "unwrap or expect on a None or Err value"@,
            Category::Explicit => "panic!, assert!, unreachable!, or todo!"@,
            Category::StrBoundary => "str sliced at a non-character boundary"@,
            Category::Borrow => "RefCell borrow conflict"@,
            Category::Poison => "poisoned Mutex or RwLock"@,
            Category::CapacityOverflow => "collection capacity overflow"@,
            Category::AllocFailure => "allocator could not satisfy a request"@,
            Category::RefCountOverflow => "Rc or Arc strong count overflow"@,
            Category::Fmt => "panic from the formatting machinery"@,
            Category::NullDeref => "null pointer dereference"@,
            Category::MisalignedRef => "reference from a misaligned pointer"@,
            Category::Unknown => "unclassified panic"@,
            Category::UbCheck => "standard library precondition check"@,
            Category::Foreign => "call into foreign code, which has no Rust body"@,
            Category::DynCall => "dyn trait call with an unresolved target set"@,
            Category::FnPointer => "call through a function pointer"@,
            Category::GenericBound => "call decided by a caller's choice of generic arguments"@,
        }
    }

    /// The name accepted on the command line.
    pub fn name(self) -> (r: &'static str)
        ensures
            r@ == self.spec_name(),
    {
        match self {
            Category::Index => "index",
            Category::Overflow => "overflow",
            Category::DivideByZero => "divide-by-zero",
            Category::RemainderByZero => "remainder-by-zero",
            Category::Unwrap => "unwrap",
            Category::Explicit => "explicit",
            Category::StrBoundary => "str-boundary",
            Category::Borrow => "borrow",
            Category::Poison => "poison",
            Category::CapacityOverflow => "capacity-overflow",
            Category::AllocFailure => "alloc-failure",
            Category::RefCountOverflow => "refcount-overflow",
            Category::Fmt => "fmt",
            Category::NullDeref => "null-deref",
            Category::MisalignedRef => "misaligned-ref",
            Category::Unknown => "unknown",
            Category::UbCheck => "ub-check",
            Category::Foreign => "foreign",
            Category::DynCall => "dyn-call",
            Category::FnPointer => "fn-pointer",
            Category::GenericBound => "generic-bound",
        }
    }

    /// A one-line description, used by the `kinds` subcommand.
    pub fn describe(self) -> (r: &'static str)
        ensures
            r@ == self.spec_describe(),
    {
        match self {
            Category::Index => "slice or array index out of bounds",
            Category::Overflow => "arithmetic overflow",
            Category::DivideByZero => "integer division by zero",
            Category::RemainderByZero => "integer remainder by zero",
            Category::Unwrap => "unwrap or expect on a None or Err value",
            Category::Explicit => "panic!, assert!, unreachable!, or todo!",
            Category::StrBoundary => "str sliced at a non-character boundary",
            Category::Borrow => "RefCell borrow conflict",
            Category::Poison => "poisoned Mutex or RwLock",
            Category::CapacityOverflow => "collection capacity overflow",
            Category::AllocFailure => "allocator could not satisfy a request",
            Category::RefCountOverflow => "Rc or Arc strong count overflow",
            Category::Fmt => "panic from the formatting machinery",
            Category::NullDeref => "null pointer dereference",
            Category::MisalignedRef => "reference from a misaligned pointer",
            Category::Unknown => "unclassified panic",
            Category::UbCheck => "standard library precondition check",
            Category::Foreign => "call into foreign code, which has no Rust body",
            Category::DynCall => "dyn trait call with an unresolved target set",
            Category::FnPointer => "call through a function pointer",
            Category::GenericBound => "call decided by a caller's choice of generic arguments",
        }
    }

    /// The bit this category occupies in a [`CategorySet`].
    pub fn bit(self) -> (r: u32)
        ensures
            r == 1u32 << self.place(),
    {
        let place: u32 = match self {
            Category::Index => 0,
            Category::Overflow => 1,
            Category::DivideByZero => 2,
            Category::RemainderByZero => 3,
            Category::Unwrap => 4,
            Category::Explicit => 5,
            Category::StrBoundary => 6,
            Category::Borrow => 7,
            Category::Poison => 8,
            Category::CapacityOverflow => 9,
            Category::AllocFailure => 10,
            Category::RefCountOverflow => 11,
            Category::Fmt => 12,
            Category::NullDeref => 13,
            Category::MisalignedRef => 14,
            Category::Unknown => 15,
            Category::UbCheck => 16,
            Category::Foreign => 17,
            Category::DynCall => 18,
            Category::FnPointer => 19,
            Category::GenericBound => 20,
        };
        1u32 << place
    }

    /// The category that goes by a name, if one does.
    pub fn from_name(s: &str) -> (r: Option<Category>)
        ensures
            match r {
                Some(c) => c.spec_name() == s@,
                None => forall|c: Category| c.spec_name() != s@,
            },
    {
        let mut i: usize = 0;
        while i < ALL.len()
            invariant
                i <= ALL@.len(),
                forall|k: int| 0 <= k < i ==> #[trigger] ALL@[k].spec_name() != s@,
            decreases ALL.len() - i,
        {
            if text::same(ALL[i].name(), s) {
                return Some(ALL[i]);
            }
            i += 1;
        }
        assert forall|c: Category| c.spec_name() != s@ by {
            assert(ALL@[c.place() as int] == c);
        }
        None
    }
}

impl FromStr for Category {
    type Err = ();

    fn from_str(s: &str) -> Result<Category, ()> {
        match Category::from_name(s) {
            Some(c) => Ok(c),
            None => Err(()),
        }
    }
}

/// Whether a bit is set.
pub open spec fn has_bit(bits: u32, place: u32) -> bool {
    bits & (1u32 << place) != 0
}

/// A set of [`Category`] values, held as a bitset.
///
/// Propagating a set rather than a boolean is what makes suppression cheap:
/// the solver computes one set per function, and a filter is a mask test.
#[derive(Debug, Clone, Copy, PartialEq, Eq, Structural)]
pub struct CategorySet(u32);

impl View for CategorySet {
    type V = Set<Category>;

    closed spec fn view(&self) -> Set<Category> {
        Set::new(|c: Category| has_bit(self.0, c.place()))
    }
}

/// The categories that describe an allocation failure.
pub open spec fn allocation() -> Set<Category> {
    set![Category::CapacityOverflow, Category::AllocFailure]
}

/// The categories that stand for code the analysis could not read.
pub open spec fn unread() -> Set<Category> {
    set![Category::Unknown, Category::Foreign, Category::DynCall, Category::FnPointer, Category::GenericBound]
}

impl CategorySet {
    #[verifier::type_invariant]
    spec fn no_stray_bits(self) -> bool {
        self.0 < 0x20_0000
    }

    /// The empty set.
    pub fn empty() -> (r: CategorySet)
        ensures
            r@ == Set::<Category>::empty(),
    {
        assert forall|i: u32| i < 21 implies !#[trigger] has_bit(0, i) by {
            assert(!has_bit(0, i)) by (bit_vector);
        }
        CategorySet(0)
    }

    /// The set of categories that describe an allocation failure.
    ///
    /// Suppressing these is the tool's headline feature: it means "assume
    /// every allocation succeeds", which is the counterfactual most callers
    /// actually want when auditing for interesting panics.
    ///
    /// `RefCountOverflow` is deliberately excluded. An `Rc` count overflow is
    /// an invariant failure, not allocator exhaustion.
    pub fn oom() -> (r: CategorySet)
        ensures
            r@ == allocation(),
    {
        let mut set = CategorySet::single(Category::CapacityOverflow);
        set.insert(Category::AllocFailure);
        set
    }

    /// The categories suppressed unless the user asks otherwise.
    ///
    /// Allocation failures are hidden because every growable collection
    /// reaches them. Precondition checks are hidden because a build that
    /// leaves them on is a debug build, and a report about one describes
    /// something the user is not shipping.
    pub fn default_suppressed() -> (r: CategorySet)
        ensures
            r@ == allocation().insert(Category::UbCheck),
    {
        let mut set = CategorySet::oom();
        set.insert(Category::UbCheck);
        set
    }

    /// The categories that stand for code the analysis could not read.
    ///
    /// None of them names a panic. Each says where visibility ended: an
    /// unreadable body, foreign code, a dynamic or pointer call, or a
    /// generic argument a caller has yet to choose.
    pub fn assumed() -> (r: CategorySet)
        ensures
            r@ == unread(),
    {
        let mut set = CategorySet::single(Category::Unknown);
        set.insert(Category::Foreign);
        set.insert(Category::DynCall);
        set.insert(Category::FnPointer);
        set.insert(Category::GenericBound);
        set
    }

    /// A set holding exactly one category.
    pub fn single(c: Category) -> (r: CategorySet)
        ensures
            r@ == set![c],
    {
        let mut set = CategorySet::empty();
        set.insert(c);
        set
    }

    /// The set of every category.
    pub fn everything() -> (r: CategorySet)
        ensures
            r@ == Set::<Category>::full(),
    {
        CategorySet::collect(&ALL)
    }

    /// The set of the categories in a list.
    pub fn collect(list: &[Category]) -> (r: CategorySet)
        ensures
            r@ == list@.to_set(),
    {
        let mut set = CategorySet::empty();
        let mut i: usize = 0;
        while i < list.len()
            invariant
                i <= list@.len(),
                set@ == list@.take(i as int).to_set(),
            decreases list.len() - i,
        {
            set.insert(list[i]);
            proof {
                let now = list@.take(i + 1);
                let was = list@.take(i as int);
                assert(now =~= was.push(list@[i as int]));
                assert forall|c: Category| now.to_set().contains(c) <==> was.to_set().insert(
                    list@[i as int],
                ).contains(c) by {
                    if was.contains(c) {
                        let k = choose|k: int| 0 <= k < was.len() && was[k] == c;
                        assert(now[k] == c);
                    }
                    if c == list@[i as int] {
                        assert(now[i as int] == c);
                    }
                    if now.contains(c) {
                        let k = choose|k: int| 0 <= k < now.len() && now[k] == c;
                        assert(k < i ==> was[k] == c);
                    }
                }
            }
            i += 1;
        }
        assert(list@.take(i as int) =~= list@);
        set
    }

    /// Adds a category to the set.
    pub fn insert(&mut self, c: Category)
        ensures
            final(self)@ == old(self)@.insert(c),
    {
        proof {
            use_type_invariant(&*self);
        }
        let bits: u32 = self.0;
        let place: Ghost<u32> = Ghost(c.place());
        let bit: u32 = c.bit();
        proof {
            let p = place@;
            assert(bits | (1u32 << p) < 0x20_0000) by (bit_vector)
                requires
                    bits < 0x20_0000,
                    p < 21,
            ;
            assert forall|i: u32| i < 21 implies #[trigger] has_bit(bits | (1u32 << p), i) == (
            has_bit(bits, i) || i == p) by {
                assert(has_bit(bits | (1u32 << p), i) == (has_bit(bits, i) || i == p))
                    by (bit_vector)
                    requires
                        i < 21,
                        p < 21,
                ;
            }
            assert forall|d: Category| d.place() == c.place() implies d == c by {}
        }
        *self = CategorySet(bits | bit);
    }

    /// Returns whether the category is a member.
    pub fn contains(self, c: Category) -> (r: bool)
        ensures
            r == self@.contains(c),
    {
        self.0 & c.bit() != 0
    }

    proof fn empty_is_zero(bits: u32)
        requires
            bits < 0x20_0000,
            forall|c: Category| !#[trigger] has_bit(bits, c.place()),
        ensures
            bits == 0,
    {
        assert forall|i: u32| i < 21 implies !#[trigger] has_bit(bits, i) by {
            assert(ALL@[i as int].place() == i);
        }
        assert(has_bit(bits, 0) || has_bit(bits, 1) || has_bit(bits, 2) || has_bit(bits, 3)
            || has_bit(bits, 4) || has_bit(bits, 5) || has_bit(bits, 6) || has_bit(bits, 7)
            || has_bit(bits, 8) || has_bit(bits, 9) || has_bit(bits, 10) || has_bit(bits, 11)
            || has_bit(bits, 12) || has_bit(bits, 13) || has_bit(bits, 14) || has_bit(bits, 15)
            || has_bit(bits, 16) || has_bit(bits, 17) || has_bit(bits, 18) || has_bit(bits, 19)
            || has_bit(bits, 20) || bits == 0) by (bit_vector)
            requires
                bits < 0x20_0000,
        ;
    }

    /// Returns whether the set holds no categories.
    pub fn is_empty(self) -> (r: bool)
        ensures
            r == (self@ == Set::<Category>::empty()),
    {
        proof {
            use_type_invariant(&self);
            if self@ == Set::<Category>::empty() {
                assert forall|c: Category| !#[trigger] has_bit(self.0, c.place()) by {
                    assert(!self@.contains(c));
                }
                CategorySet::empty_is_zero(self.0);
            } else if self.0 == 0 {
                assert forall|i: u32| !#[trigger] has_bit(0, i) by {
                    assert(!has_bit(0, i)) by (bit_vector);
                }
                assert(self@ =~= Set::<Category>::empty());
            }
        }
        self.0 == 0
    }

    /// Returns whether two sets hold the same categories.
    pub fn same(self, other: CategorySet) -> (r: bool)
        ensures
            r == (self@ == other@),
    {
        proof {
            use_type_invariant(&self);
            use_type_invariant(&other);
            if self@ == other@ {
                let a = self.0;
                let b = other.0;
                assert(a ^ b < 0x20_0000) by (bit_vector)
                    requires
                        a < 0x20_0000,
                        b < 0x20_0000,
                ;
                assert forall|c: Category| !#[trigger] has_bit(a ^ b, c.place()) by {
                    let i = c.place();
                    assert(has_bit(a ^ b, i) == (has_bit(a, i) != has_bit(b, i))) by (bit_vector)
                        requires
                            i < 21,
                    ;
                    assert(self@.contains(c) == other@.contains(c));
                }
                CategorySet::empty_is_zero(a ^ b);
                assert(a == b) by (bit_vector)
                    requires
                        a ^ b == 0,
                ;
            }
        }
        self.0 == other.0
    }

    /// Returns the union of two sets.
    pub fn union(self, other: CategorySet) -> (r: CategorySet)
        ensures
            r@ == self@.union(other@),
    {
        proof {
            use_type_invariant(&self);
            use_type_invariant(&other);
            let a = self.0;
            let b = other.0;
            assert(a | b < 0x20_0000) by (bit_vector)
                requires
                    a < 0x20_0000,
                    b < 0x20_0000,
            ;
            assert forall|i: u32| #[trigger] has_bit(a | b, i) == (has_bit(a, i) || has_bit(b, i)) by {
                assert(has_bit(a | b, i) == (has_bit(a, i) || has_bit(b, i))) by (bit_vector);
            }
        }
        CategorySet(self.0 | other.0)
    }

    /// Returns the categories in `self` that are absent from `other`.
    pub fn difference(self, other: CategorySet) -> (r: CategorySet)
        ensures
            r@ == self@.difference(other@),
    {
        proof {
            use_type_invariant(&self);
            let a = self.0;
            let b = other.0;
            assert(a & !b < 0x20_0000) by (bit_vector)
                requires
                    a < 0x20_0000,
            ;
            assert forall|i: u32| i < 21 implies #[trigger] has_bit(a & !b, i) == (has_bit(a, i)
                && !has_bit(b, i)) by {
                assert(has_bit(a & !b, i) == (has_bit(a, i) && !has_bit(b, i))) by (bit_vector)
                    requires
                        i < 21,
                ;
            }
        }
        CategorySet(self.0 & !other.0)
    }

    /// Returns the categories present in both sets.
    pub fn intersection(self, other: CategorySet) -> (r: CategorySet)
        ensures
            r@ == self@.intersect(other@),
    {
        proof {
            use_type_invariant(&self);
            let a = self.0;
            let b = other.0;
            assert(a & b < 0x20_0000) by (bit_vector)
                requires
                    a < 0x20_0000,
            ;
            assert forall|i: u32| i < 21 implies #[trigger] has_bit(a & b, i) == (has_bit(a, i)
                && has_bit(b, i)) by {
                assert(has_bit(a & b, i) == (has_bit(a, i) && has_bit(b, i))) by (bit_vector)
                    requires
                        i < 21,
                ;
            }
        }
        CategorySet(self.0 & other.0)
    }

    /// Returns whether `self` holds every category in `other`.
    pub fn contains_all(self, other: CategorySet) -> (r: bool)
        ensures
            r == other@.subset_of(self@),
    {
        let missing = other.difference(self);
        proof {
            if missing@ == Set::<Category>::empty() {
                assert forall|c: Category| other@.contains(c) implies self@.contains(c) by {
                    assert(!missing@.contains(c));
                }
            } else if other@.subset_of(self@) {
                assert(missing@ =~= Set::<Category>::empty());
            }
        }
        missing.is_empty()
    }

    /// Returns the number of categories in the set.
    pub fn len(self) -> (r: u32)
        ensures
            r == self@.len(),
            self@.finite(),
    {
        let members = self.iter();
        proof {
            members@.unique_seq_to_set();
            assert(members@.to_set() =~= self@);
        }
        members.len() as u32
    }

    /// Lists the categories in order.
    pub fn iter(self) -> (r: Vec<Category>)
        ensures
            r@ == in_order(self@),
            r@.no_duplicates(),
            r@.len() <= 21,
            forall|c: Category| r@.contains(c) <==> self@.contains(c),
    {
        let mut out: Vec<Category> = Vec::new();
        let mut i: usize = 0;
        assert(ALL@.take(0) =~= Seq::<Category>::empty());
        while i < ALL.len()
            invariant
                i <= ALL@.len(),
                out@ == ALL@.take(i as int).filter(|c: Category| self@.contains(c)),
                out@.len() <= i,
            decreases ALL.len() - i,
        {
            proof {
                lists::filtered_step(ALL@, |c: Category| self@.contains(c), i as int);
            }
            if self.contains(ALL[i]) {
                out.push(ALL[i]);
            }
            i += 1;
        }
        proof {
            assert(ALL@.take(21) =~= ALL@);
            in_order_holds(self@);
        }
        out
    }
}

/// The names of a set's members, in order.
pub open spec fn names_of(set: Set<Category>) -> Seq<Seq<char>> {
    in_order(set).map_values(|c: Category| c.spec_name())
}

/// A set as it is written in a report.
pub open spec fn list_text(set: Set<Category>) -> Seq<char> {
    text::joined(names_of(set), ", "@)
}

impl CategorySet {
    /// The names of the categories, in order.
    pub fn names(self) -> (r: Vec<String>)
        ensures
            text::texts(r@) == names_of(self@),
    {
        let members = self.iter();
        let mut out: Vec<String> = Vec::new();
        let mut i: usize = 0;
        while i < members.len()
            invariant
                i <= members@.len(),
                out@.len() == i,
                forall|k: int| 0 <= k < i ==> (#[trigger] out@[k])@ == members@[k].spec_name(),
            decreases members.len() - i,
        {
            out.push(members[i].name().to_owned());
            i += 1;
        }
        assert(text::texts(out@) =~= names_of(self@));
        out
    }

    /// The set as it is written in a report.
    pub fn text(self) -> (r: String)
        ensures
            r@ == list_text(self@),
    {
        text::join(&self.names(), ", ")
    }
}

/// The members of a set in the order of [`ALL`].
pub open spec fn in_order(set: Set<Category>) -> Seq<Category> {
    ALL@.filter(|c: Category| set.contains(c))
}

/// Listing a set in order keeps exactly its members, each once.
pub proof fn in_order_holds(set: Set<Category>)
    ensures
        in_order(set).no_duplicates(),
        forall|c: Category| #[trigger] in_order(set).contains(c) <==> set.contains(c),
        in_order(set).len() <= 21,
{
    let p = |c: Category| set.contains(c);
    assert(ALL@.no_duplicates()) by {
        assert forall|i: int, j: int| 0 <= i < 21 && 0 <= j < 21 && i != j implies ALL@[i]
            != ALL@[j] by {
            assert(ALL@[i].place() == i);
            assert(ALL@[j].place() == j);
        }
    }
    lists::filtered(ALL@, p);
    assert forall|c: Category| #[trigger] in_order(set).contains(c) <==> set.contains(c) by {
        assert(ALL@[c.place() as int] == c);
    }
}

/// What one word of a selector stands for.
pub open spec fn selected(word: Seq<char>) -> Option<Set<Category>> {
    if word == "oom"@ {
        Some(allocation())
    } else if word == "assumed"@ {
        Some(unread())
    } else if word == "default"@ {
        Some(allocation().insert(Category::UbCheck))
    } else if word == "all"@ {
        Some(Set::full())
    } else if exists|c: Category| c.spec_name() == word {
        Some(set![choose|c: Category| c.spec_name() == word])
    } else {
        None
    }
}

/// The words of a selector: what stands between its commas, without the
/// white space around it.
pub open spec fn words(s: Seq<char>) -> Seq<Seq<char>> {
    text::pieces(s, ',').map_values(|t: Seq<char>| text::trimmed(t))
}

/// What the first `n` words of a selector name together, or the first of them
/// that names nothing.
pub open spec fn chosen(words: Seq<Seq<char>>, n: nat) -> Result<Set<Category>, Seq<char>>
    decreases n,
{
    if n == 0 {
        Ok(Set::empty())
    } else {
        match chosen(words, (n - 1) as nat) {
            Err(word) => Err(word),
            Ok(set) => {
                let word = words[n - 1];
                if word.len() == 0 {
                    Ok(set)
                } else {
                    match selected(word) {
                        Some(more) => Ok(set.union(more)),
                        None => Err(word),
                    }
                }
            },
        }
    }
}

/// What a selector names, or the first of its words that names nothing.
pub open spec fn selection(s: Seq<char>) -> Result<Set<Category>, Seq<char>> {
    chosen(words(s), words(s).len())
}

/// A selector names exactly what one of its words names, and its words all
/// name something.
pub proof fn selector_is_a_union(words: Seq<Seq<char>>, n: nat)
    requires
        n <= words.len(),
        chosen(words, n) is Ok,
    ensures
        forall|i: int|
            0 <= i < n && (#[trigger] words[i]).len() > 0 ==> selected(words[i]) is Some,
        forall|c: Category|
            chosen(words, n)->Ok_0.contains(c) <==> exists|i: int|
                0 <= i < n && (#[trigger] words[i]).len() > 0 && selected(words[i])->0.contains(c),
    decreases n,
{
    if n > 0 {
        let m = (n - 1) as nat;
        selector_is_a_union(words, m);
        assert forall|c: Category|
            chosen(words, n)->Ok_0.contains(c) <==> exists|i: int|
                0 <= i < n && (#[trigger] words[i]).len() > 0 && selected(words[i])->0.contains(c) by {
            if chosen(words, m)->Ok_0.contains(c) {
                let i = choose|i: int|
                    0 <= i < m && (#[trigger] words[i]).len() > 0 && selected(words[i])->0.contains(c);
                assert(words[i].len() > 0);
            }
            if words[m as int].len() > 0 && selected(words[m as int])->0.contains(c) {
                assert(words[m as int].len() > 0);
            }
        }
    }
}

/// The length of a category's name, with its first and its third letter.
spec fn spelling(c: Category) -> (nat, char, char) {
    match c {
        Category::Index => (5, 'i', 'd'),
        Category::Overflow => (8, 'o', 'e'),
        Category::DivideByZero => (14, 'd', 'v'),
        Category::RemainderByZero => (17, 'r', 'm'),
        Category::Unwrap => (6, 'u', 'w'),
        Category::Explicit => (8, 'e', 'p'),
        Category::StrBoundary => (12, 's', 'r'),
        Category::Borrow => (6, 'b', 'r'),
        Category::Poison => (6, 'p', 'i'),
        Category::CapacityOverflow => (17, 'c', 'p'),
        Category::AllocFailure => (13, 'a', 'l'),
        Category::RefCountOverflow => (17, 'r', 'f'),
        Category::Fmt => (3, 'f', 't'),
        Category::NullDeref => (10, 'n', 'l'),
        Category::MisalignedRef => (14, 'm', 's'),
        Category::Unknown => (7, 'u', 'k'),
        Category::UbCheck => (8, 'u', '-'),
        Category::Foreign => (7, 'f', 'r'),
        Category::DynCall => (8, 'd', 'n'),
        Category::FnPointer => (10, 'f', '-'),
        Category::GenericBound => (13, 'g', 'n'),
    }
}

proof fn names_are_spelled(c: Category)
    ensures
        c.spec_name().len() == spelling(c).0,
        c.spec_name()[0] == spelling(c).1,
        c.spec_name()[2] == spelling(c).2,
{
    match c {
        Category::Index => reveal_strlit("index"),
        Category::Overflow => reveal_strlit("overflow"),
        Category::DivideByZero => reveal_strlit("divide-by-zero"),
        Category::RemainderByZero => reveal_strlit("remainder-by-zero"),
        Category::Unwrap => reveal_strlit("unwrap"),
        Category::Explicit => reveal_strlit("explicit"),
        Category::StrBoundary => reveal_strlit("str-boundary"),
        Category::Borrow => reveal_strlit("borrow"),
        Category::Poison => reveal_strlit("poison"),
        Category::CapacityOverflow => reveal_strlit("capacity-overflow"),
        Category::AllocFailure => reveal_strlit("alloc-failure"),
        Category::RefCountOverflow => reveal_strlit("refcount-overflow"),
        Category::Fmt => reveal_strlit("fmt"),
        Category::NullDeref => reveal_strlit("null-deref"),
        Category::MisalignedRef => reveal_strlit("misaligned-ref"),
        Category::Unknown => reveal_strlit("unknown"),
        Category::UbCheck => reveal_strlit("ub-check"),
        Category::Foreign => reveal_strlit("foreign"),
        Category::DynCall => reveal_strlit("dyn-call"),
        Category::FnPointer => reveal_strlit("fn-pointer"),
        Category::GenericBound => reveal_strlit("generic-bound"),
    }
}

/// Distinct categories have distinct names.
pub proof fn names_are_distinct(a: Category, b: Category)
    requires
        a.spec_name() == b.spec_name(),
    ensures
        a == b,
{
    names_are_spelled(a);
    names_are_spelled(b);
}

/// Distinct categories occupy distinct bits.
pub proof fn bits_are_distinct(a: Category, b: Category)
    requires
        1u32 << a.place() == 1u32 << b.place(),
    ensures
        a == b,
{
    let i = a.place();
    let j = b.place();
    assert(i == j) by (bit_vector)
        requires
            i < 21,
            j < 21,
            1u32 << i == 1u32 << j,
    ;
}

/// A set of categories holds no more than there are.
pub proof fn few_categories(set: Set<Category>)
    ensures
        set.finite(),
        set.len() <= 21,
{
    in_order_holds(set);
    in_order(set).unique_seq_to_set();
    assert(in_order(set).to_set() =~= set);
}

/// Resolves a comma-separated selector into a category set.
///
/// Accepts individual category names plus the group aliases `oom`,
/// `assumed`, `default` and `all`.
///
/// # Errors
///
/// Returns the offending token if it names neither a category nor a group.
pub fn parse_selector(s: &str) -> (r: Result<CategorySet, String>)
    ensures
        match r {
            Ok(set) => selection(s@) == Ok::<Set<Category>, Seq<char>>(set@),
            Err(token) => selection(s@) == Err::<Set<Category>, Seq<char>>(token@),
        },
{
    let tokens = text::split(s, ',');
    let mut set = CategorySet::empty();
    let ghost named = words(s@);
    let mut i: usize = 0;
    while i < tokens.len()
        invariant
            i <= tokens@.len(),
            text::texts(tokens@) == text::pieces(s@, ','),
            named == words(s@),
            named.len() == tokens@.len(),
            chosen(named, i as nat) == Ok::<Set<Category>, Seq<char>>(set@),
        decreases tokens.len() - i,
    {
        let token = text::trim(tokens[i].as_str());
        assert(text::texts(tokens@)[i as int] == tokens@[i as int]@);
        assert(token@ == named[i as int]);
        let tok = token.as_str();
        if tok.is_empty() {
        } else if text::same(tok, "oom") {
            set = set.union(CategorySet::oom());
        } else if text::same(tok, "assumed") {
            set = set.union(CategorySet::assumed());
        } else if text::same(tok, "default") {
            set = set.union(CategorySet::default_suppressed());
        } else if text::same(tok, "all") {
            assert(set@.union(Set::full()) =~= Set::<Category>::full());
            set = CategorySet::everything();
        } else {
            match Category::from_name(tok) {
                Some(c) => {
                    let ghost before = set@;
                    proof {
                        let d = choose|d: Category| d.spec_name() == tok@;
                        names_are_distinct(c, d);
                        assert(before.union(set![c]) =~= before.insert(c));
                    }
                    set.insert(c);
                },
                None => {
                    proof {
                        unknown_stays(named, (i + 1) as nat, named.len());
                    }
                    return Err(token);
                },
            }
        }
        i += 1;
    }
    Ok(set)
}

/// The first word that names nothing decides, whatever follows it.
proof fn unknown_stays(words: Seq<Seq<char>>, n: nat, m: nat)
    requires
        n <= m,
        chosen(words, n) is Err,
    ensures
        chosen(words, m) == chosen(words, n),
    decreases m,
{
    if n < m {
        unknown_stays(words, n, (m - 1) as nat);
    }
}

} // verus!
