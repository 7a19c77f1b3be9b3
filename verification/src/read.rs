//! What the walk reads a body's values as.
//!
//! Every claim here is drawn from one statement or one call and says what a
//! local can hold at that point. The walk itself lives next door; this is
//! the half that answers what a value is, which is what decides whether a
//! check the compiler wrote can fail.

use vstd::prelude::*;

use crate::mir;
use crate::mir::{
    value_at, Build, Function, Kind, Operand, Place, Pointee, Program, Rvalue, Step, Type,
};
use crate::places;
use crate::places::{escaping, is_aimed_at, Places, Slots};
use crate::ranges;
use crate::ranges::{bitwise, moved, recast, settled, spanned, split};
use crate::state;
use crate::state::{held, root_of, State};
use crate::value;
use crate::value::{
    all_ones, compare, mirrored, pinned, spans_compare, stepped, BinOp, Bounds, Claim, Fact, Form,
    Known, LenRel, Local, Over, Rank, Ranks, Side, Ty,
};

verus! {

/// One body, with what the walk works out of it before it starts.
pub struct Scope<'a> {
    pub program: &'a Program,
    pub function: &'a Function,
    /// Which slots a pointer could be aimed at.
    pub escaped: Vec<bool>,
    /// The places this body is tracked at, past its locals.
    pub places: Places,
}

/// Whether what is claimed is a claim of its type.
pub open spec fn claim_wf(claim: Option<Claim>) -> bool {
    match claim {
        Some(v) => v.wf(),
        None => true,
    }
}

/// The first of two, where there is one, and else the second.
pub open spec fn first_some<T>(a: Option<T>, b: Option<T>) -> Option<T> {
    match a {
        Some(x) => Some(x),
        None => b,
    }
}

fn either<T>(a: Option<T>, b: Option<T>) -> (r: Option<T>)
    ensures
        r == first_some(a, b),
{
    match a {
        Some(x) => Some(x),
        None => b,
    }
}

/// A value as a claim.
pub open spec fn exactly(known: Option<Known>) -> Option<Claim> {
    match known {
        Some(k) => Some(Claim::Exact(k)),
        None => None,
    }
}

fn certain(known: Option<Known>) -> (r: Option<Claim>)
    requires
        match known {
            Some(k) => k.wf(),
            None => true,
        },
    ensures
        r == exactly(known),
        claim_wf(r),
{
    match known {
        Some(k) => Some(Claim::Exact(k)),
        None => None,
    }
}

/// A fact holding just a claim, where there is one.
fn plain(claim: Option<Claim>) -> (r: Fact)
    requires
        claim_wf(claim),
    ensures
        r == Fact::just(claim),
        r.wf(),
{
    Fact { value: claim, ..Fact::blank() }
}

/// Every value a type admits.
pub open spec fn spec_whole(ty: Option<Type>) -> Option<Bounds> {
    match ty {
        Some(t) => match t.spec_seed() {
            Some(seed) => if seed.ty.form is Int || seed.ty.form is Uint {
                Bounds::spec_new(seed.at(seed.min_val()), seed.at(seed.max_val()))
            } else {
                None
            },
            None => None,
        },
        None => None,
    }
}

/// Every value a type admits.
pub fn whole(ty: Option<Type>) -> (r: Option<Bounds>)
    ensures
        r == spec_whole(ty),
        match r {
            Some(b) => b.wf(),
            None => true,
        },
{
    match ty {
        Some(t) => match t.seed() {
            Some(seed) => if seed.ty.form == Form::Int || seed.ty.form == Form::Uint {
                Bounds::new(seed.type_min(), seed.type_max())
            } else {
                None
            },
            None => None,
        },
        None => None,
    }
}

/// The type claims about a type's values are written at.
pub open spec fn spec_written_at(ty: Option<Type>) -> Option<Ty> {
    match ty {
        Some(t) => match t.spec_seed() {
            Some(seed) => Some(seed.ty),
            None => None,
        },
        None => None,
    }
}

/// The type claims about a type's values are written at.
pub fn written_at(ty: Option<Type>) -> (r: Option<Ty>)
    ensures
        r == spec_written_at(ty),
{
    match ty {
        Some(t) => match t.seed() {
            Some(seed) => Some(seed.ty),
            None => None,
        },
        None => None,
    }
}

/// A value of an integer type that is known not to be zero.
pub open spec fn spec_apart_from_zero(ty: Option<Type>) -> Option<Claim> {
    match ty {
        Some(t) => match t.spec_seed() {
            Some(seed) => Some(Claim::spec_other_than(seed)),
            None => None,
        },
        None => None,
    }
}

/// A value of an integer type that is known not to be zero.
pub fn apart_from_zero(ty: Option<Type>) -> (r: Option<Claim>)
    ensures
        r == spec_apart_from_zero(ty),
        claim_wf(r),
{
    match ty {
        Some(t) => match t.seed() {
            Some(seed) => Some(Claim::other_than(seed)),
            None => None,
        },
        None => None,
    }
}

/// Whether a type is the standard library's nonzero wrapper.
pub open spec fn spec_is_nonzero(ty: Option<Type>) -> bool {
    ty is Some && ty->Some_0.kind is NonZero
}

/// Whether a type is the standard library's nonzero wrapper.
pub fn is_nonzero(ty: Option<Type>) -> (r: bool)
    ensures
        r == spec_is_nonzero(ty),
{
    match ty {
        Some(t) => match t.kind {
            Kind::NonZero => true,
            _ => false,
        },
        None => false,
    }
}

/// Whether a type points at a slice.
pub open spec fn points_at_slice(ty: Option<Type>) -> bool {
    ty is Some && ty->Some_0.spec_pointee() == Some(Pointee::Slice)
}

fn is_slice_pointer(ty: Option<Type>) -> (r: bool)
    ensures
        r == points_at_slice(ty),
{
    match ty {
        Some(t) => t.pointee() == Some(Pointee::Slice),
        None => false,
    }
}

/// The claim a reading of a slice's length carries.
pub open spec fn spec_measuring(claim: Claim) -> Fact {
    Fact {
        order: match claim {
            Claim::Length(of) => Ranks::One(Rank { rel: LenRel::AtMost, of }),
            _ => Ranks::Empty,
        },
        ..Fact::just(Some(claim))
    }
}

/// The claim a reading of a slice's length carries.
///
/// A length is at most itself. Saying so outright is what lets a value
/// that started as one keep an ordering where a loop's arms meet: the
/// turn that walks back carries a bound, and the two agree on the
/// weaker of them rather than on nothing.
pub fn measuring(claim: Claim) -> (r: Fact)
    requires
        claim.wf(),
    ensures
        r == spec_measuring(claim),
        r.wf(),
{
    let order = match claim {
        Claim::Length(of) => Ranks::of(LenRel::AtMost, of),
        _ => Ranks::none_held(),
    };
    Fact { order, ..Fact::of(claim) }
}

/// A fact with what an ordering against a slice of known length amounts to.
pub open spec fn spec_ranged(state: Seq<Fact>, held: Fact) -> Fact {
    match held.order.spec_first() {
        None => held,
        Some(rank) => match state::spec_held(state, rank.of).extent {
            None => held,
            Some(extent) => if extent.hi.signed() {
                held
            } else {
                let top = match rank.rel {
                    LenRel::Below => extent.hi.fitted(extent.hi.val() - 1),
                    LenRel::AtMost => Some(extent.hi),
                };
                match top {
                    None => held,
                    Some(hi) => match Bounds::spec_new(Known { bits: 0, ..extent.hi }, hi) {
                        None => held,
                        Some(bound) => Fact {
                            value: Some(
                                match held.value {
                                    Some(known) => known.spec_refined(Claim::Within(bound)),
                                    None => Claim::Within(bound),
                                },
                            ),
                            ..held
                        },
                    },
                }
            },
        },
    }
}

/// The claim an ordering against a slice of known length amounts to.
///
/// An index below a length that lies in a range lies in that range
/// too, one short of its top. That is what carries a bound proved
/// against one slice into a read of a second slice known to be as
/// long.
pub fn ranged(state: &State, fact: Fact) -> (r: Fact)
    requires
        state::sound(state@),
        fact.wf(),
    ensures
        r == spec_ranged(state@, fact),
        r.wf(),
{
    let rank = match fact.order.first() {
        Some(rank) => rank,
        None => {
            return fact;
        },
    };
    let extent = match held(state, rank.of).extent {
        Some(extent) => extent,
        None => {
            return fact;
        },
    };
    if extent.hi.is_signed() {
        return fact;
    }
    let top = match rank.rel {
        LenRel::Below => extent.hi.predecessor(),
        LenRel::AtMost => Some(extent.hi),
    };
    match top {
        None => fact,
        Some(hi) => match Bounds::new(extent.hi.zero(), hi) {
            None => fact,
            Some(bound) => {
                let value = match fact.value {
                    Some(known) => known.refined(Claim::Within(bound)),
                    None => Claim::Within(bound),
                };
                Fact { value: Some(value), ..fact }
            },
        },
    }
}

/// A fact with what the local it was copied from is known about.
///
/// A copy denotes what its source did, so what the source is known about
/// stands for the copy as well.
pub open spec fn spec_traced_back(state: Seq<Fact>, own: Fact) -> Fact {
    match own.same {
        None => own,
        Some(root) => {
            let source = state::spec_held(state, root);
            Fact {
                value: first_some(own.value, source.value),
                order: if own.order is Empty {
                    source.order
                } else {
                    own.order
                },
                extent: first_some(own.extent, source.extent),
                paired: first_some(own.paired, source.paired),
                spans: first_some(own.spans, source.spans),
                address: own.address || source.address,
                ..own
            }
        },
    }
}

/// Everything known about one local, read through its link of sameness.
pub open spec fn spec_known_at(state: Seq<Fact>, local: Local) -> Fact {
    let held = spec_traced_back(state, state::spec_held(state, local));
    match held.value {
        Some(Claim::Length(of)) => {
            let behind = state::spec_held(state, of);
            Fact { extent: behind.extent, paired: behind.paired, ..held }
        },
        _ => spec_ranged(state, held),
    }
}

/// Everything known about one local, read through its link of
/// sameness.
pub fn known_at(state: &State, local: Local) -> (r: Fact)
    requires
        state::sound(state@),
    ensures
        r == spec_known_at(state@, local),
        r.wf(),
{
    proof {
        Fact::nothing_is_wf();
    }
    let own = held(state, local);
    let fact = match own.same {
        None => own,
        Some(root) => {
            let source = held(state, root);
            Fact {
                value: either(own.value, source.value),
                order: if own.order.is_empty() {
                    source.order
                } else {
                    own.order
                },
                extent: either(own.extent, source.extent),
                paired: either(own.paired, source.paired),
                spans: either(own.spans, source.spans),
                address: own.address || source.address,
                ..own
            }
        },
    };
    match fact.value {
        Some(Claim::Length(of)) => {
            let behind = held(state, of);
            Fact { extent: behind.extent, paired: behind.paired, ..fact }
        },
        _ => ranged(state, fact),
    }
}

/// The orderings a sum keeps of one that was held.
pub open spec fn raised_rank(ranks: Ranks, rank: Option<Rank>, added: u128) -> Ranks {
    match rank {
        Some(held) => if added == 0 {
            ranks.with(held.rel, held.of)
        } else if added == 1 && held.rel is Below {
            ranks.with(LenRel::AtMost, held.of)
        } else {
            ranks
        },
        None => ranks,
    }
}

/// How an addition leaves a value ordered against a slice's length.
pub open spec fn spec_lengthened(left: Fact, right: Fact) -> Ranks {
    match settled_claim(right) {
        Some(added) => if added.signed() {
            Ranks::Empty
        } else {
            raised_rank(
                raised_rank(Ranks::Empty, left.order.spec_first(), added.bits),
                left.order.spec_second(),
                added.bits,
            )
        },
        None => Ranks::Empty,
    }
}

/// The value a fact's claim settles.
pub open spec fn settled_claim(fact: Fact) -> Option<Known> {
    match fact.value {
        Some(claim) => claim.spec_exact(),
        None => None,
    }
}

fn settles(fact: Fact) -> (r: Option<Known>)
    requires
        fact.wf(),
    ensures
        r == settled_claim(fact),
        match r {
            Some(k) => k.wf(),
            None => true,
        },
{
    match fact.value {
        Some(claim) => claim.exact(),
        None => None,
    }
}

fn raise_rank(ranks: Ranks, rank: Option<Rank>, added: u128) -> (r: Ranks)
    ensures
        r == raised_rank(ranks, rank, added),
{
    let mut ranks = ranks;
    if let Some(held) = rank {
        if added == 0 {
            ranks.add(held.rel, held.of);
        } else if added == 1 && held.rel == LenRel::Below {
            ranks.add(LenRel::AtMost, held.of);
        }
    }
    ranks
}

/// How an addition leaves a value ordered against a slice's length.
///
/// A value below a length is at most that length once one is added to
/// it, which is what the read of everything past a byte asks. The sum
/// cannot wrap: the length itself lies inside the type, so a value
/// below it has room for one more.
fn lengthened(left: Fact, right: Fact) -> (r: Ranks)
    requires
        right.wf(),
    ensures
        r == spec_lengthened(left, right),
{
    match settles(right) {
        Some(added) => if added.is_signed() {
            Ranks::none_held()
        } else {
            let one = raise_rank(Ranks::none_held(), left.order.first(), added.bits);
            raise_rank(one, left.order.second(), added.bits)
        },
        None => Ranks::none_held(),
    }
}

/// The orderings a difference keeps of one that was held.
pub open spec fn lowered_rank(ranks: Ranks, rank: Option<Rank>, taken: u128) -> Ranks {
    match rank {
        Some(held) => ranks.with(
            if taken == 0 {
                held.rel
            } else {
                LenRel::Below
            },
            held.of,
        ),
        None => ranks,
    }
}

fn lower_rank(ranks: Ranks, rank: Option<Rank>, taken: u128) -> (r: Ranks)
    ensures
        r == lowered_rank(ranks, rank, taken),
{
    let mut ranks = ranks;
    if let Some(held) = rank {
        let rel = if taken == 0 {
            held.rel
        } else {
            LenRel::Below
        };
        ranks.add(rel, held.of);
    }
    ranks
}

/// How a subtraction leaves a value ordered against a slice's length.
pub open spec fn spec_shortened(span: Option<Bounds>, left: Fact, right: Fact) -> Ranks {
    let held = match (left.order, left.value) {
        (Ranks::Empty, Some(Claim::Length(of))) => Ranks::One(Rank { rel: LenRel::AtMost, of }),
        _ => left.order,
    };
    match (settled_claim(right), span) {
        (Some(taken), Some(span)) => if taken.signed() || span.lo.spec_order(taken) is None
            || span.lo.spec_order(taken) == Some(Side::Less) {
            Ranks::Empty
        } else {
            lowered_rank(
                lowered_rank(Ranks::Empty, held.spec_first(), taken.bits),
                held.spec_second(),
                taken.bits,
            )
        },
        _ => Ranks::Empty,
    }
}

/// How a subtraction leaves a value ordered against a slice's length.
///
/// A value already measured against a length is still measured against
/// it once a constant is taken off, and strictly below it once anything
/// at all is. The value has to be at least what is taken off, or a
/// build with the check turned off wraps it round to the top of the
/// type instead of shortening it.
fn shortened(span: Option<Bounds>, left: Fact, right: Fact) -> (r: Ranks)
    requires
        left.wf(),
        right.wf(),
        match span {
            Some(b) => b.wf(),
            None => true,
        },
    ensures
        r == spec_shortened(span, left, right),
{
    let taken = match settles(right) {
        Some(taken) => taken,
        None => {
            return Ranks::none_held();
        },
    };
    let held = match (left.order, left.value) {
        (Ranks::Empty, Some(Claim::Length(of))) => Ranks::of(LenRel::AtMost, of),
        _ => left.order,
    };
    if taken.is_signed() {
        return Ranks::none_held();
    }
    let under = match span {
        Some(span) => match span.lo.order(taken) {
            Some(by) => by == Side::Less,
            None => true,
        },
        None => true,
    };
    if under {
        return Ranks::none_held();
    }
    let one = lower_rank(Ranks::none_held(), held.first(), taken.bits);
    lower_rank(one, held.second(), taken.bits)
}

/// Where a value below a length by what is held has one added or something
/// taken off it that it has room for, what is kept of its order still holds.
pub proof fn reordering_is_conservative(
    left: Fact,
    right: Fact,
    span: Bounds,
    x: Known,
    y: Known,
    measure: spec_fn(Local) -> int,
)
    requires
        left.wf(),
        right.wf(),
        x.wf(),
        y.wf(),
        span.wf(),
        span.holds(x),
        x.same(y),
        left.allows(x, measure),
        right.allows(y, measure),
    ensures
        spec_lengthened(left, right).holds(x.val() + y.val(), measure),
        spec_shortened(Some(span), left, right).holds(x.val() - y.val(), measure),
{
}

/// The range an operand lies in, given what is known of it.
pub open spec fn spec_spread(ty: Option<Type>, fact: Fact) -> Option<Bounds> {
    match spec_whole(ty) {
        None => None,
        Some(whole) => match fact.value {
            None => Some(whole),
            Some(claim) => if claim.spec_ty() != Some(whole.lo.ty) {
                Some(whole)
            } else {
                Some(
                    match Claim::Within(whole).spec_refined(claim).spec_bounds() {
                        Some(narrow) => narrow,
                        None => whole,
                    },
                )
            },
        },
    }
}

fn spread_of(ty: Option<Type>, fact: Fact) -> (r: Option<Bounds>)
    requires
        fact.wf(),
    ensures
        r == spec_spread(ty, fact),
        match r {
            Some(b) => b.wf(),
            None => true,
        },
{
    match whole(ty) {
        None => None,
        Some(whole) => match fact.value {
            None => Some(whole),
            Some(claim) => if claim.ty() != Some(whole.lo.ty) {
                Some(whole)
            } else {
                match Claim::Within(whole).refined(claim).bounds() {
                    Some(narrow) => Some(narrow),
                    None => Some(whole),
                }
            },
        },
    }
}

/// What the walk works out of one body before it starts.
#[verifier::ext_equal]
pub struct Lens {
    pub program: Program,
    pub function: Function,
    pub escaped: Seq<bool>,
    pub places: Slots,
}

impl<'a> View for Scope<'a> {
    type V = Lens;

    open spec fn view(&self) -> Lens {
        Lens {
            program: *self.program,
            function: *self.function,
            escaped: self.escaped@,
            places: self.places@,
        }
    }
}

impl Lens {
    /// The scope of a body.
    pub open spec fn of(program: Program, function: Function) -> Lens {
        Lens {
            program,
            function,
            escaped: places::spec_escaping(function) + Seq::new(
                places::watched(function).len(),
                |i: int| false,
            ),
            places: Slots::of(function),
        }
    }

    /// Whether the slots fit past the locals.
    pub open spec fn wf(self) -> bool {
        self.places.wf()
    }

    /// How many slots a state has: one for every local and for every place
    /// the body is tracked at.
    pub open spec fn slots(self) -> nat {
        self.places.first as nat + self.places.paths.len()
    }

    /// Where a place's claim is recorded, when the walk records one.
    pub open spec fn slot_of(self, place: Place) -> Option<Local> {
        let slot = match place.spec_as_local() {
            Some(local) => Some(local),
            None => self.places.slot(place),
        };
        match slot {
            Some(at) => if places::aimed_at(self.escaped, at) {
                None
            } else {
                Some(at)
            },
            None => None,
        }
    }

    /// The slot an operand was read from, when it names a place.
    pub open spec fn slot_read(self, operand: Operand) -> Option<Local> {
        match operand {
            Operand::Read(place, _) => self.slot_of(place),
            _ => None,
        }
    }

    /// The slot an operand's value came from, through its link of sameness.
    pub open spec fn source_of(self, state: Seq<Fact>, operand: Operand) -> Option<Local> {
        match self.slot_read(operand) {
            Some(slot) => Some(state::spec_root_of(state, slot)),
            None => None,
        }
    }

    /// Everything known about an operand, read through its link of sameness.
    pub open spec fn fact(self, state: Seq<Fact>, operand: Operand) -> Fact {
        match operand {
            Operand::Read(place, reference) => {
                let held = match self.slot_of(place) {
                    Some(slot) => spec_known_at(state, slot),
                    None => Fact::nothing(),
                };
                if reference {
                    Fact { address: true, ..held }
                } else {
                    held
                }
            },
            Operand::Constant(_, _) => Fact::just(exactly(operand.spec_constant())),
            Operand::Checks(on) => Fact::just(exactly(self.program.spec_boolean(on))),
        }
    }

    /// The range an operand lies in, which is its type's own range when
    /// nothing narrower is known.
    pub open spec fn spread(self, state: Seq<Fact>, operand: Operand) -> Option<Bounds> {
        spec_spread(operand.spec_ty(self.program), self.fact(state, operand))
    }

    /// An operand read for an assignment, with where a copy of a plain local
    /// came from.
    pub open spec fn traced(self, state: Seq<Fact>, operand: Operand) -> Fact {
        let fact = self.fact(state, operand);
        match self.source_of(state, operand) {
            Some(root) => if places::aimed_at(self.escaped, root) {
                fact
            } else {
                Fact { same: Some(root), ..fact }
            },
            None => fact,
        }
    }

    /// A value widened or narrowed to another integer type.
    pub open spec fn cast(
        self,
        state: Seq<Fact>,
        operand: Operand,
        ty: Option<Type>,
    ) -> Option<Claim> {
        let source = operand.spec_ty(self.program);
        let held = self.fact(state, operand).value;
        let claim = match held {
            Some(Claim::Length(_)) => None,
            Some(claim) => if spec_written_at(source) is Some && claim.spec_ty()
                == spec_written_at(source) {
                Some(claim)
            } else {
                ranges::within(spec_whole(source))
            },
            None => ranges::within(spec_whole(source)),
        };
        match (claim, ty) {
            (Some(claim), Some(t)) => match t.spec_seed() {
                Some(seed) => ranges::spec_recast(claim, seed),
                None => None,
            },
            _ => None,
        }
    }

    /// The tag one variant of an enum carries.
    pub open spec fn tag_of(self, ty: Option<Type>, variant: usize) -> Option<u128> {
        match self.program.spec_enum_of(ty) {
            Some(e) => if variant < e.tags@.len() {
                Some(e.tags@[variant as int])
            } else {
                None
            },
            None => None,
        }
    }

    /// The variant a value read at a niche encoded enum's own type holds.
    pub open spec fn niched(
        self,
        state: Seq<Fact>,
        operand: Operand,
        ty: Option<Type>,
    ) -> Option<u128> {
        match self.program.spec_enum_of(ty) {
            Some(e) => match e.niche {
                Some(niche) => if !niche.single {
                    None
                } else {
                    let held = self.fact(state, operand);
                    let apart = if held.address && niche.start == 0 {
                        Some(true)
                    } else {
                        match mir::spec_value_at(operand.spec_ty(self.program), niche.start) {
                            Some(k) => value::spec_compare(
                                BinOp::Ne,
                                held,
                                Fact::just(Some(Claim::Exact(k))),
                            ),
                            None => None,
                        }
                    };
                    if apart == Some(true) {
                        self.tag_of(ty, niche.untagged)
                    } else {
                        None
                    }
                },
                None => None,
            },
            None => None,
        }
    }

    /// A value read out at another type without changing its bits.
    pub open spec fn reinterpreted(
        self,
        state: Seq<Fact>,
        operand: Operand,
        ty: Option<Type>,
    ) -> Fact {
        let tag = self.niched(state, operand, ty);
        if self.fact(state, operand).address {
            Fact { address: true, value: spec_apart_from_zero(ty), tag, ..Fact::nothing() }
        } else {
            Fact {
                value: if spec_is_nonzero(operand.spec_ty(self.program)) {
                    spec_apart_from_zero(ty)
                } else {
                    None
                },
                tag,
                ..Fact::nothing()
            }
        }
    }

    /// How long the slice an array was unsized into is.
    pub open spec fn unsized_from(self, operand: Operand) -> Fact {
        match (array_length(operand.spec_ty(self.program)), self.program.size.spec_seed()) {
            (Some(count), Some(seed)) => if count <= value::ones(seed.width as nat) {
                Fact {
                    extent: Some(Bounds::single(Known { bits: count as u128, ..seed })),
                    address: true,
                    ..Fact::nothing()
                }
            } else {
                Fact::nothing()
            },
            _ => Fact::nothing(),
        }
    }

    /// How long a slice a reborrow of a whole pointee is.
    pub open spec fn reborrowed(self, state: Seq<Fact>, place: Place) -> Fact {
        if place.steps@ == seq![Step::Deref] && !places::aimed_at(self.escaped, place.local)
            && place.local.0 < self.function.locals@.len() && points_at_slice(
            self.function.locals@[place.local.0 as int],
        ) {
            let held = spec_known_at(state, place.local);
            Fact {
                extent: held.extent,
                paired: first_some(held.paired, Some(place.local)),
                spans: held.spans,
                ..Fact::nothing()
            }
        } else {
            Fact::nothing()
        }
    }

    /// The value the discriminant of a settled place reads as.
    pub open spec fn tag_read(self, state: Seq<Fact>, place: Place) -> Option<Claim> {
        match self.slot_of(place) {
            Some(slot) => match (
                spec_known_at(state, slot).tag,
                self.program.spec_enum_of(place.ty),
            ) {
                (Some(tag), Some(e)) => if e.tags@.contains(tag) {
                    exactly(mir::spec_value_at(e.read_at, tag))
                } else {
                    None
                },
                _ => None,
            },
            None => None,
        }
    }

    /// The length a wide pointer carries, when the pointee is a slice.
    pub open spec fn length_of(self, state: Seq<Fact>, operand: Operand) -> Option<Claim> {
        match self.source_of(state, operand) {
            Some(local) => if points_at_slice(operand.spec_ty(self.program)) {
                Some(Claim::Length(local))
            } else {
                None
            },
            None => None,
        }
    }

    /// How a value compares with the one it was reached from, where one side
    /// was reached from the other: whether it was, and the answer.
    pub open spec fn stepped(
        self,
        state: Seq<Fact>,
        op: BinOp,
        left: Operand,
        right: Operand,
    ) -> Option<bool> {
        let near = self.source_of(state, left);
        let far = self.source_of(state, right);
        match self.fact(state, right).over {
            Some(over) => if near == Some(over.of) {
                value::spec_stepped(op, over.step)
            } else {
                self.stepped_from(state, op, left, far)
            },
            None => self.stepped_from(state, op, left, far),
        }
    }

    /// How a value reached from another compares with that one.
    pub open spec fn stepped_from(
        self,
        state: Seq<Fact>,
        op: BinOp,
        left: Operand,
        far: Option<Local>,
    ) -> Option<bool> {
        match self.fact(state, left).over {
            Some(over) => if far == Some(over.of) {
                value::spec_stepped(value::spec_mirrored(op), over.step)
            } else {
                None
            },
            None => None,
        }
    }

    /// The link back to the value an addition was reached from.
    pub open spec fn raised(
        self,
        state: Seq<Fact>,
        op: BinOp,
        left: Operand,
        right: Fact,
        claim: Option<Claim>,
    ) -> Option<Over> {
        if op is Add && claim is Some && claim->Some_0 is Within {
            match (settled_claim(right), self.source_of(state, left)) {
                (Some(step), Some(of)) => if step.signed() {
                    None
                } else {
                    Some(Over { of, step: step.bits })
                },
                _ => None,
            }
        } else {
            None
        }
    }

    /// Whether an operand is read as an unsigned integer.
    pub open spec fn unsigned(self, operand: Operand) -> bool {
        match operand.spec_ty(self.program) {
            Some(t) => t.kind is Number && t.kind->Number_0 is Uint,
            None => false,
        }
    }

    /// How the result of an operator is ordered against a slice's length.
    pub open spec fn ordered(
        self,
        state: Seq<Fact>,
        op: BinOp,
        left: Operand,
        right: Operand,
    ) -> Ranks {
        let l = self.fact(state, left);
        let r = self.fact(state, right);
        match op {
            BinOp::Rem => match r.value {
                Some(Claim::Length(of)) => if self.unsigned(left) {
                    Ranks::One(Rank { rel: LenRel::Below, of })
                } else {
                    Ranks::Empty
                },
                _ => Ranks::Empty,
            },
            BinOp::Div => match l.value {
                Some(Claim::Length(of)) => if self.unsigned(right) {
                    Ranks::One(Rank { rel: LenRel::AtMost, of })
                } else {
                    Ranks::Empty
                },
                _ => Ranks::Empty,
            },
            BinOp::Sub => spec_shortened(self.spread(state, left), l, r),
            BinOp::Add => spec_lengthened(l, r),
            _ => Ranks::Empty,
        }
    }

    /// What a comparison or an operator is settled to, or the range it leaves.
    pub open spec fn binary(
        self,
        state: Seq<Fact>,
        op: BinOp,
        left: Operand,
        right: Operand,
    ) -> Option<Claim> {
        let l = self.fact(state, left);
        let r = self.fact(state, right);
        let a = self.spread(state, left);
        let b = self.spread(state, right);
        let spans = match (a, b) {
            (Some(x), Some(y)) => value::spec_spans_compare(op, x, y),
            _ => None,
        };
        let both = match (l.value, r.value) {
            (Some(Claim::Exact(x)), Some(Claim::Exact(y))) => ranges::spec_settled(op, x, y),
            _ => None,
        };
        match value::spec_compare(op, l, r) {
            Some(truth) => exactly(self.program.spec_boolean(truth)),
            None => match spans {
                Some(truth) => exactly(self.program.spec_boolean(truth)),
                None => match both {
                    Some(known) => Some(Claim::Exact(known)),
                    None => match op {
                        BinOp::Add | BinOp::Sub | BinOp::Mul => match (a, b) {
                            (Some(x), Some(y)) => ranges::spec_spanned(op, x, y),
                            _ => None,
                        },
                        BinOp::Div | BinOp::Rem => match (a, b) {
                            (Some(x), Some(y)) => ranges::spec_split(op, x, y),
                            _ => None,
                        },
                        BinOp::BitAnd | BinOp::BitOr | BinOp::BitXor => match (a, b) {
                            (Some(x), Some(y)) => ranges::spec_bitwise(op, x, y),
                            _ => None,
                        },
                        BinOp::Shl | BinOp::ShlUnchecked | BinOp::Shr | BinOp::ShrUnchecked => match a {
                            Some(x) => ranges::spec_moved(op, x, settled_claim(r)),
                            None => None,
                        },
                        _ => None,
                    },
                },
            },
        }
    }

    /// What a binary operator leaves, given what its operands are known about.
    pub open spec fn operated(
        self,
        state: Seq<Fact>,
        op: BinOp,
        left: Operand,
        right: Operand,
    ) -> Fact {
        match self.stepped(state, op, left, right) {
            Some(truth) => Fact::just(exactly(self.program.spec_boolean(truth))),
            None => {
                let claim = self.binary(state, op, left, right);
                Fact {
                    over: self.raised(
                        state,
                        op,
                        left,
                        self.fact(state, right),
                        claim,
                    ),
                    value: claim,
                    order: self.ordered(state, op, left, right),
                    ..Fact::nothing()
                }
            },
        }
    }

    /// What a fat pointer is known about, given what it is built from.
    pub open spec fn fattened(self, state: Seq<Fact>, meta: Operand) -> Fact {
        let held = self.fact(state, meta).value;
        Fact {
            extent: match held {
                Some(claim) => claim.spec_bounds(),
                None => None,
            },
            paired: match held {
                Some(Claim::Length(of)) => Some(of),
                _ => None,
            },
            spans: match meta {
                Operand::Read(from, _) => match from.spec_as_local() {
                    Some(of) => if places::aimed_at(self.escaped, of) {
                        None
                    } else {
                        Some(of)
                    },
                    None => None,
                },
                _ => None,
            },
            ..Fact::nothing()
        }
    }

    /// A settled value with every bit turned, or a truth value denied.
    pub open spec fn denied(self, state: Seq<Fact>, operand: Operand) -> Option<Claim> {
        match value::spec_pinned(self.fact(state, operand)) {
            Some(held) => Some(
                Claim::Exact(
                    Known {
                        bits: if held.ty.form is Bool {
                            if held.bits == 0 {
                                1
                            } else {
                                0
                            }
                        } else {
                            (value::ones(held.width as nat) - held.bits) as u128
                        },
                        ..held
                    },
                ),
            ),
            None => None,
        }
    }

    /// What an assignment's right side is known about.
    pub open spec fn rvalue(self, state: Seq<Fact>, rvalue: Rvalue) -> Fact {
        match rvalue {
            Rvalue::Use(operand) => self.traced(state, operand),
            Rvalue::IntCast(operand, ty) => Fact::just(self.cast(state, operand, ty)),
            Rvalue::Reinterpret(operand, ty) => self.reinterpreted(state, operand, ty),
            Rvalue::Unsize(operand) => self.unsized_from(operand),
            Rvalue::Binary(op, left, right) => self.operated(state, op, left, right),
            Rvalue::Not(operand) => Fact::just(self.denied(state, operand)),
            Rvalue::Metadata(operand) => match self.length_of(state, operand) {
                Some(claim) => spec_measuring(claim),
                None => Fact::nothing(),
            },
            Rvalue::Address(place, _, _) => Fact {
                address: true,
                ..self.reborrowed(state, place)
            },
            Rvalue::Discriminant(place) => Fact::just(self.tag_read(state, place)),
            Rvalue::Aggregate(build, fields) => match build {
                Build::Variant(at, ty) => Fact {
                    tag: self.tag_of(ty, at as usize),
                    ..Fact::nothing()
                },
                Build::Fat => if fields@.len() > 1 {
                    self.fattened(state, fields@[1])
                } else {
                    Fact::nothing()
                },
                _ => Fact::nothing(),
            },
            Rvalue::Other(_) => Fact::nothing(),
        }
    }
}

impl<'a> Scope<'a> {
    /// Reads one body, unless its slots cannot be counted.
    ///
    /// A place is tracked whatever its base does, since what a pointer
    /// could reach is swept where the write happens instead.
    pub fn new(program: &'a Program, function: &'a Function) -> (r: Option<Scope<'a>>)
        ensures
            match r {
                Some(scope) => scope@ == Lens::of(*program, *function) && scope@.wf(),
                None => function.locals@.len() + places::watched(*function).len() > usize::MAX,
            },
    {
        let places = Places::of(function);
        let mut escaped = escaping(function);
        let n = places.len();
        if function.locals.len() > usize::MAX - n {
            return None;
        }
        let ghost was = escaped@;
        let mut i: usize = 0;
        while i < n
            invariant
                i <= n,
                escaped@ == was + Seq::new(i as nat, |i: int| false),
            decreases n - i,
        {
            escaped.push(false);
            i += 1;
            assert(escaped@ =~= was + Seq::new(i as nat, |i: int| false));
        }
        let scope = Scope { program, function, escaped, places };
        assert(scope@ =~= Lens::of(*program, *function));
        Some(scope)
    }

    /// Whether a pointer could be aimed at a local, so its value is never
    /// assumed. A local the walk has never heard of is treated as escaping.
    pub fn escapes(&self, local: Local) -> (r: bool)
        ensures
            r == places::aimed_at(self@.escaped, local),
    {
        is_aimed_at(&self.escaped, local)
    }

    /// Where a place's claim is recorded, when the walk records one.
    pub fn slot_of(&self, place: &Place) -> (r: Option<Local>)
        requires
            self@.wf(),
        ensures
            r == self@.slot_of(*place),
    {
        let slot = match place.as_local() {
            Some(local) => Some(local),
            None => self.places.slot(place),
        };
        match slot {
            Some(at) => if self.escapes(at) {
                None
            } else {
                Some(at)
            },
            None => None,
        }
    }

    /// The slot an operand was read from, when it names a place.
    pub fn slot_read(&self, operand: &Operand) -> (r: Option<Local>)
        requires
            self@.wf(),
        ensures
            r == self@.slot_read(*operand),
    {
        match operand {
            Operand::Read(place, _) => self.slot_of(place),
            _ => None,
        }
    }

    /// The slot an operand's value came from, through its link of sameness.
    pub fn source_of(&self, state: &State, operand: &Operand) -> (r: Option<Local>)
        requires
            self@.wf(),
        ensures
            r == self@.source_of(state@, *operand),
    {
        match self.slot_read(operand) {
            Some(slot) => Some(root_of(state, slot)),
            None => None,
        }
    }

    /// Reads everything known about an operand, reading through its link
    /// of sameness.
    ///
    /// A link always names a local that carries no link of its own, so one
    /// step is all there ever is. A claim held locally and one held at the
    /// source were both true when made and neither has been swept, so
    /// whichever exists is usable. Whether a check is on is settled by the
    /// session compiling the crate, which is what makes a standard library
    /// block vanish in a build that turns the check off.
    pub fn fact(&self, state: &State, operand: &Operand) -> (r: Fact)
        requires
            self@.wf(),
            state::sound(state@),
        ensures
            r == self@.fact(state@, *operand),
            r.wf(),
    {
        match operand {
            Operand::Read(place, reference) => {
                let held = match self.slot_of(place) {
                    Some(slot) => known_at(state, slot),
                    None => Fact::blank(),
                };
                if *reference {
                    Fact { address: true, ..held }
                } else {
                    held
                }
            },
            Operand::Constant(_, _) => plain(certain(operand.constant())),
            Operand::Checks(on) => plain(certain(self.program.truth(*on))),
        }
    }

    /// Reads an operand, when its value is settled.
    pub fn exact(&self, state: &State, operand: &Operand) -> (r: Option<Known>)
        requires
            self@.wf(),
            state::sound(state@),
        ensures
            r == value::spec_pinned(self@.fact(state@, *operand)),
            match r {
                Some(k) => k.wf(),
                None => true,
            },
    {
        pinned(self.fact(state, operand))
    }

    /// The range an operand lies in, which is its type's own range when
    /// nothing narrower is known.
    pub fn spread(&self, state: &State, operand: &Operand) -> (r: Option<Bounds>)
        requires
            self@.wf(),
            state::sound(state@),
        ensures
            r == self@.spread(state@, *operand),
            match r {
                Some(b) => b.wf(),
                None => true,
            },
    {
        spread_of(operand.ty(self.program), self.fact(state, operand))
    }

    /// Reads an operand for an assignment, recording where a copy of a
    /// plain local came from.
    ///
    /// The link is kept even when the value itself is known: a fact the
    /// source learns later still has to reach the checks that read the
    /// copy, and the link is how it travels.
    fn traced(&self, state: &State, operand: &Operand) -> (r: Fact)
        requires
            self@.wf(),
            state::sound(state@),
        ensures
            r == self@.traced(state@, *operand),
            r.wf(),
    {
        let fact = self.fact(state, operand);
        match self.source_of(state, operand) {
            Some(root) => if self.escapes(root) {
                fact
            } else {
                Fact { same: Some(root), ..fact }
            },
            None => fact,
        }
    }

    /// Widens or narrows a value to another integer type.
    ///
    /// A value nothing is known about still lies inside its own type, and
    /// that is the whole claim where the source is narrow: a byte read into
    /// an index is below two hundred and fifty six wherever it came from.
    fn cast(&self, state: &State, operand: &Operand, ty: Option<Type>) -> (r: Option<Claim>)
        requires
            self@.wf(),
            state::sound(state@),
        ensures
            r == self@.cast(state@, *operand, ty),
            claim_wf(r),
    {
        let source = operand.ty(self.program);
        let held = self.fact(state, operand).value;
        let at = written_at(source);
        let claim = match held {
            Some(Claim::Length(_)) => None,
            Some(claim) => if at.is_some() && claim.ty() == at {
                Some(claim)
            } else {
                ranges::claimed(whole(source))
            },
            None => ranges::claimed(whole(source)),
        };
        match (claim, ty) {
            (Some(claim), Some(t)) => match t.seed() {
                Some(seed) => recast(claim, seed),
                None => None,
            },
            _ => None,
        }
    }

    /// The tag one variant of an enum carries.
    pub fn tag_of(&self, ty: Option<Type>, variant: usize) -> (r: Option<u128>)
        ensures
            r == self@.tag_of(ty, variant),
    {
        match self.program.enum_of(ty) {
            Some(e) => if variant < e.tags.len() {
                Some(e.tags[variant])
            } else {
                None
            },
            None => None,
        }
    }

    /// The variant a value read at a niche encoded enum's own type holds.
    ///
    /// Such an enum carries no tag of its own: a variant with no fields is
    /// written as a value the payload could never take, so a payload the
    /// walk has ruled that value out for is the variant that carries one.
    /// It is what settles the match written under `NonZero::new`, and with
    /// it every check the standard library builds on one.
    ///
    /// Only an encoding with a single such value is read, which is what an
    /// option around a pointer or a nonzero number uses.
    fn niched(&self, state: &State, operand: &Operand, ty: Option<Type>) -> (r: Option<u128>)
        requires
            self@.wf(),
            state::sound(state@),
        ensures
            r == self@.niched(state@, *operand, ty),
    {
        let niche = match self.program.enum_of(ty) {
            Some(e) => match e.niche {
                Some(niche) => niche,
                None => {
                    return None;
                },
            },
            None => {
                return None;
            },
        };
        if !niche.single {
            return None;
        }
        let held = self.fact(state, operand);
        let apart = if held.address && niche.start == 0 {
            Some(true)
        } else {
            match value_at(operand.ty(self.program), niche.start) {
                Some(k) => compare(BinOp::Ne, held, Fact::of(Claim::Exact(k))),
                None => None,
            }
        };
        if apart == Some(true) {
            self.tag_of(ty, niche.untagged)
        } else {
            None
        }
    }

    /// Reads a value out at another type without changing its bits.
    ///
    /// An address and the value inside a nonzero wrapper both come out this
    /// way, and neither of them is zero.
    fn reinterpreted(&self, state: &State, operand: &Operand, ty: Option<Type>) -> (r: Fact)
        requires
            self@.wf(),
            state::sound(state@),
        ensures
            r == self@.reinterpreted(state@, *operand, ty),
            r.wf(),
    {
        let tag = self.niched(state, operand, ty);
        if self.fact(state, operand).address {
            Fact { address: true, value: apart_from_zero(ty), tag, ..Fact::blank() }
        } else {
            let value = if is_nonzero(operand.ty(self.program)) {
                apart_from_zero(ty)
            } else {
                None
            };
            Fact { value, tag, ..Fact::blank() }
        }
    }

    /// How long the slice an array was unsized into is.
    ///
    /// The array states its own length, so the slice made of it is exactly
    /// that long wherever it is read, and a check comparing two such
    /// lengths is one the walk can settle.
    fn unsized_from(&self, operand: &Operand) -> (r: Fact)
        ensures
            r == self@.unsized_from(*operand),
            r.wf(),
    {
        let pointee = match operand.ty(self.program) {
            Some(t) => t.pointee(),
            None => None,
        };
        match (pointee, self.program.size.seed()) {
            (Some(Pointee::Array(Some(count))), Some(seed)) => {
                if count as u128 > all_ones(seed.width) {
                    return Fact::blank();
                }
                let end = Known { bits: count as u128, ..seed };
                Fact { extent: Bounds::new(end, end), address: true, ..Fact::blank() }
            },
            _ => Fact::blank(),
        }
    }

    /// How long a slice a reborrow of a whole pointee is.
    ///
    /// Taking a reference to everything a pointer points at leaves a slice
    /// as long as the one it was taken of, which is what carries the length
    /// of a subslice built from its parts to the call that reads it.
    fn reborrowed(&self, state: &State, place: &Place) -> (r: Fact)
        requires
            state::sound(state@),
        ensures
            r == self@.reborrowed(state@, *place),
            r.wf(),
    {
        if place.steps.len() != 1 {
            return Fact::blank();
        }
        if place.steps[0] != Step::Deref {
            assert(place.steps@[0] != seq![Step::Deref][0]);
            return Fact::blank();
        }
        assert(place.steps@ =~= seq![Step::Deref]);
        if self.escapes(place.local) {
            return Fact::blank();
        }
        if place.local.0 >= self.function.locals.len() {
            return Fact::blank();
        }
        if !is_slice_pointer(self.function.locals[place.local.0]) {
            return Fact::blank();
        }
        let held = known_at(state, place.local);
        Fact {
            extent: held.extent,
            paired: either(held.paired, Some(place.local)),
            spans: held.spans,
            ..Fact::blank()
        }
    }

    /// The value the discriminant of a settled place reads as.
    fn tag_read(&self, state: &State, place: &Place) -> (r: Option<Claim>)
        requires
            self@.wf(),
            state::sound(state@),
        ensures
            r == self@.tag_read(state@, *place),
            claim_wf(r),
    {
        let slot = match self.slot_of(place) {
            Some(slot) => slot,
            None => {
                return None;
            },
        };
        match (known_at(state, slot).tag, self.program.enum_of(place.ty)) {
            (Some(tag), Some(e)) => if tagged_so(&e.tags, tag) {
                certain(value_at(e.read_at, tag))
            } else {
                None
            },
            _ => None,
        }
    }

    /// The length a wide pointer carries, when the pointee is a slice.
    fn length_of(&self, state: &State, operand: &Operand) -> (r: Option<Claim>)
        requires
            self@.wf(),
        ensures
            r == self@.length_of(state@, *operand),
            claim_wf(r),
    {
        match self.source_of(state, operand) {
            Some(local) => if is_slice_pointer(operand.ty(self.program)) {
                Some(Claim::Length(local))
            } else {
                None
            },
            None => None,
        }
    }

    /// How a value compares with the one it was reached from.
    fn stepped(&self, state: &State, op: BinOp, left: &Operand, right: &Operand) -> (r: Option<bool>)
        requires
            self@.wf(),
            state::sound(state@),
        ensures
            r == self@.stepped(state@, op, *left, *right),
    {
        let near = self.source_of(state, left);
        if let Some(over) = self.fact(state, right).over {
            if near == Some(over.of) {
                return stepped(op, over.step);
            }
        }
        let far = self.source_of(state, right);
        match self.fact(state, left).over {
            Some(over) => if far == Some(over.of) {
                stepped(mirrored(op), over.step)
            } else {
                None
            },
            None => None,
        }
    }

    /// The link back to the value an addition was reached from.
    ///
    /// It is only recorded where the sum stayed inside its type, so the
    /// claim is the arithmetic one rather than what the machine wraps to.
    fn raised(
        &self,
        state: &State,
        op: BinOp,
        left: &Operand,
        right: Fact,
        claim: Option<Claim>,
    ) -> (r: Option<Over>)
        requires
            self@.wf(),
            right.wf(),
        ensures
            r == self@.raised(state@, op, *left, right, claim),
    {
        let inside = match claim {
            Some(Claim::Within(_)) => true,
            _ => false,
        };
        if op != BinOp::Add || !inside {
            return None;
        }
        match (settles(right), self.source_of(state, left)) {
            (Some(step), Some(of)) => if step.is_signed() {
                None
            } else {
                Some(Over { of, step: step.bits })
            },
            _ => None,
        }
    }

    /// Whether an operand is read as an unsigned integer.
    fn unsigned(&self, operand: &Operand) -> (r: bool)
        ensures
            r == self@.unsigned(*operand),
    {
        match operand.ty(self.program) {
            Some(t) => match t.kind {
                Kind::Number(form, _) => form == Form::Uint,
                _ => false,
            },
            None => false,
        }
    }

    /// How the result of an operator is ordered against a slice's length.
    ///
    /// The remainder of an unsigned value by a length lands below it, which
    /// is what the slice's own bounds check asks, and a length divided by
    /// anything is no larger than itself. Both divisors are above zero
    /// wherever this runs, since the check the compiler writes in front of
    /// them has passed to get here.
    fn ordered(&self, state: &State, op: BinOp, left: &Operand, right: &Operand) -> (r: Ranks)
        requires
            self@.wf(),
            state::sound(state@),
        ensures
            r == self@.ordered(state@, op, *left, *right),
    {
        let near = self.fact(state, left);
        let far = self.fact(state, right);
        match op {
            BinOp::Rem => match far.value {
                Some(Claim::Length(of)) => if self.unsigned(left) {
                    Ranks::of(LenRel::Below, of)
                } else {
                    Ranks::none_held()
                },
                _ => Ranks::none_held(),
            },
            BinOp::Div => match near.value {
                Some(Claim::Length(of)) => if self.unsigned(right) {
                    Ranks::of(LenRel::AtMost, of)
                } else {
                    Ranks::none_held()
                },
                _ => Ranks::none_held(),
            },
            BinOp::Sub => shortened(self.spread(state, left), near, far),
            BinOp::Add => lengthened(near, far),
            _ => Ranks::none_held(),
        }
    }

    /// Applies an operator the folder can evaluate.
    ///
    /// A value nothing is known about still lies inside its own type, and
    /// that alone settles a check written against the end of it: nothing
    /// unsigned is below zero, which is what a range index turns into once
    /// its other end is proved. Arithmetic is followed only where every end
    /// of the result lands inside its type. The remaining operators bound
    /// their result by construction: a remainder by a constant and a masked
    /// value cannot leave the range the operator itself defines.
    fn binary(&self, state: &State, op: BinOp, left: &Operand, right: &Operand) -> (r: Option<
        Claim,
    >)
        requires
            self@.wf(),
            state::sound(state@),
        ensures
            r == self@.binary(state@, op, *left, *right),
            claim_wf(r),
    {
        let near = self.fact(state, left);
        let far = self.fact(state, right);
        if let Some(truth) = compare(op, near, far) {
            return certain(self.program.truth(truth));
        }
        let a = self.spread(state, left);
        let b = self.spread(state, right);
        if let (Some(x), Some(y)) = (a, b) {
            if let Some(truth) = spans_compare(op, x, y) {
                return certain(self.program.truth(truth));
            }
        }
        if let (Some(Claim::Exact(x)), Some(Claim::Exact(y))) = (near.value, far.value) {
            if let Some(known) = settled(op, x, y) {
                return Some(Claim::Exact(known));
            }
        }
        match op {
            BinOp::Add | BinOp::Sub | BinOp::Mul => match (a, b) {
                (Some(x), Some(y)) => spanned(op, x, y),
                _ => None,
            },
            BinOp::Div | BinOp::Rem => match (a, b) {
                (Some(x), Some(y)) => split(op, x, y),
                _ => None,
            },
            BinOp::BitAnd | BinOp::BitOr | BinOp::BitXor => match (a, b) {
                (Some(x), Some(y)) => bitwise(op, x, y),
                _ => None,
            },
            BinOp::Shl | BinOp::ShlUnchecked | BinOp::Shr | BinOp::ShrUnchecked => match a {
                Some(x) => moved(op, x, settles(far)),
                None => None,
            },
            _ => None,
        }
    }

    /// Applies a binary operator to what its operands are known about.
    ///
    /// A value and the same value raised by a constant compare by what
    /// was added, which is what settles the order check a range index
    /// writes over `at` and `at + 4`.
    fn operated(&self, state: &State, op: BinOp, left: &Operand, right: &Operand) -> (r: Fact)
        requires
            self@.wf(),
            state::sound(state@),
        ensures
            r == self@.operated(state@, op, *left, *right),
            r.wf(),
    {
        if let Some(truth) = self.stepped(state, op, left, right) {
            return plain(certain(self.program.truth(truth)));
        }
        let claim = self.binary(state, op, left, right);
        let over = self.raised(state, op, left, self.fact(state, right), claim);
        let order = self.ordered(state, op, left, right);
        Fact { over, value: claim, order, ..Fact::blank() }
    }

    /// What a fat pointer is known about, given what it is built from.
    ///
    /// For a slice that is how many elements it holds. A slice as long as
    /// the length of another is as long as that other, which is what settles
    /// the check a copy between the two writes, and a slice cut to a length
    /// is exactly that long, so one cut to the same length again is as long
    /// as it.
    fn fattened(&self, state: &State, meta: &Operand) -> (r: Fact)
        requires
            self@.wf(),
            state::sound(state@),
        ensures
            r == self@.fattened(state@, *meta),
            r.wf(),
    {
        let held = self.fact(state, meta).value;
        let extent = match held {
            Some(claim) => claim.bounds(),
            None => None,
        };
        let paired = match held {
            Some(Claim::Length(of)) => Some(of),
            _ => None,
        };
        let spans = match meta {
            Operand::Read(from, _) => match from.as_local() {
                Some(of) => if self.escapes(of) {
                    None
                } else {
                    Some(of)
                },
                None => None,
            },
            _ => None,
        };
        Fact { extent, paired, spans, ..Fact::blank() }
    }

    fn denied(&self, state: &State, operand: &Operand) -> (r: Option<Claim>)
        requires
            self@.wf(),
            state::sound(state@),
        ensures
            r == self@.denied(state@, *operand),
            claim_wf(r),
    {
        match self.exact(state, operand) {
            Some(held) => {
                proof {
                    value::ones_grow(1, held.width as nat);
                    reveal_with_fuel(value::ones, 2);
                    value::ones_fit(held.width as nat);
                }
                let bits: u128 = if held.ty.form == Form::Bool {
                    if held.truth() {
                        0
                    } else {
                        1
                    }
                } else {
                    all_ones(held.width) - held.bits
                };
                Some(Claim::Exact(Known { bits, ..held }))
            },
            None => None,
        }
    }

    /// Evaluates an rvalue against what the locals are known about.
    ///
    /// A place has an address, so a pointer taken of one is never null
    /// however the place was reached. Taking one of everything another points
    /// at leaves a slice as long as that one was. Reading the discriminant of
    /// an enum the walk has settled is what folds the match below it.
    pub fn rvalue(&self, state: &State, rvalue: &Rvalue) -> (r: Fact)
        requires
            self@.wf(),
            state::sound(state@),
        ensures
            r == self@.rvalue(state@, *rvalue),
            r.wf(),
    {
        match rvalue {
            Rvalue::Use(operand) => self.traced(state, operand),
            Rvalue::IntCast(operand, ty) => plain(self.cast(state, operand, *ty)),
            Rvalue::Reinterpret(operand, ty) => self.reinterpreted(state, operand, *ty),
            Rvalue::Unsize(operand) => self.unsized_from(operand),
            Rvalue::Binary(op, left, right) => self.operated(state, *op, left, right),
            Rvalue::Not(operand) => plain(self.denied(state, operand)),
            Rvalue::Metadata(operand) => match self.length_of(state, operand) {
                Some(claim) => measuring(claim),
                None => Fact::blank(),
            },
            Rvalue::Address(place, _, _) => Fact {
                address: true,
                ..self.reborrowed(state, place)
            },
            Rvalue::Discriminant(place) => plain(self.tag_read(state, place)),
            Rvalue::Aggregate(build, fields) => match *build {
                Build::Variant(at, ty) => Fact {
                    tag: self.tag_of(ty, at as usize),
                    ..Fact::blank()
                },
                Build::Fat => if fields.len() > 1 {
                    self.fattened(state, &fields[1])
                } else {
                    Fact::blank()
                },
                _ => Fact::blank(),
            },
            Rvalue::Other(_) => Fact::blank(),
        }
    }
}

/// How many elements the array behind a pointer holds.
pub open spec fn array_length(ty: Option<Type>) -> Option<u64> {
    match ty {
        Some(t) => match t.spec_pointee() {
            Some(Pointee::Array(count)) => count,
            _ => None,
        },
        None => None,
    }
}

/// Whether a number is among some.
pub fn tagged_so(tags: &Vec<u128>, tag: u128) -> (r: bool)
    ensures
        r == tags@.contains(tag),
{
    let mut i: usize = 0;
    while i < tags.len()
        invariant
            i <= tags@.len(),
            forall|k: int| 0 <= k < i ==> #[trigger] tags@[k] != tag,
        decreases tags@.len() - i,
    {
        if tags[i] == tag {
            return true;
        }
        i += 1;
    }
    false
}

} // verus!
