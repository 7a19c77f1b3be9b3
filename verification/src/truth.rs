//! What holds of one run of a body.
//!
//! A run has a number in every slot: the value of one that holds a number,
//! the length of the slice behind one that holds a slice. A state holds of a
//! run when nothing it says of a slot is false of that number. A statement, a
//! branch, a check, a drop and a call each take a run on, and the state that
//! goes with it holds of the run still; so does what is left where two ways
//! into a block meet.

use vstd::prelude::*;

use crate::branch;
use crate::edges::Sent;
use crate::effects;
use crate::fold;
use crate::mir;
use crate::mir::{
    Arm, Assert, Build, Call, Contract, Function, Kind, Operand, Place, Program, Rvalue, Statement,
    Step, Unwind,
};
use crate::places;
use crate::places::{Path, Slots};
use crate::ranges;
use crate::read;
use crate::read::Lens;
use crate::state;
use crate::state::Compared;
use crate::summary;
use crate::summary::Carried;
use crate::value;
use crate::value::{Against, BinOp, Bounds, Claim, Fact, Known, LenRel, Local, Rank, Ranks, Side, Taught};

verus! {

/// What one run holds at one point.
pub struct Run {
    /// The number in a slot, or the length of the slice behind it.
    pub at: spec_fn(Local) -> Known,
    /// The tag of the enum in a slot.
    pub tag: spec_fn(Local) -> u128,
}

/// A number is one of its type, and a truth value is none or one.
pub open spec fn proper(k: Known) -> bool {
    k.wf() && (k.ty.form is Bool ==> k.bits <= 1)
}

/// Whether an order is one between numbers of one type.
pub open spec fn of_one_type(rank: Option<Rank>, k: Known, run: Run) -> bool {
    match rank {
        Some(held) => proper((run.at)(held.of)) && k.same((run.at)(held.of)),
        None => true,
    }
}

impl Run {
    /// What a slot measures.
    pub open spec fn measure(self) -> spec_fn(Local) -> int {
        |l: Local| (self.at)(l).val()
    }

    /// Whether what a fact says of a number, and of the tag that goes with
    /// it, is so.
    pub open spec fn backs(self, fact: Fact, k: Known, tag: u128) -> bool {
        &&& proper(k)
        &&& fact.allows(k, self.measure())
        &&& of_one_type(fact.order.spec_first(), k, self)
        &&& of_one_type(fact.order.spec_second(), k, self)
        &&& fact.same matches Some(of) ==> (self.at)(of) == k && (self.tag)(of) == tag
        &&& fact.value matches Some(Claim::Length(of)) ==> (self.at)(of) == k
        &&& fact.extent matches Some(range) ==> range.holds(k)
        &&& fact.paired matches Some(of) ==> (self.at)(of) == k
        &&& fact.spans matches Some(of) ==> (self.at)(of) == k
        &&& fact.over matches Some(over) ==> k.val() == (self.at)(over.of).val() + over.step
        &&& fact.tag matches Some(held) ==> tag == held
    }

    /// Whether what a fact says of a slot is so.
    pub open spec fn bears(self, fact: Fact, slot: Local) -> bool {
        fact.wf() && self.backs(fact, (self.at)(slot), (self.tag)(slot))
    }

    /// Whether what is taught of a slot is so.
    pub open spec fn owns(self, taught: Taught, slot: Local) -> bool {
        let k = (self.at)(slot);
        match taught {
            Taught::Value(claim) => claim.wf() && claim.allows(k, self.measure()) && !(
            claim is Length),
            Taught::Order(rel, of) => proper((self.at)(of)) && k.same((self.at)(of)) && match rel {
                LenRel::Below => k.val() < (self.at)(of).val(),
                LenRel::AtMost => k.val() <= (self.at)(of).val(),
            },
            Taught::Apart(of) => k.val() != (self.at)(of).val(),
            Taught::Alike(of) => k == (self.at)(of),
        }
    }
}

/// Whether a state says nothing false of a run.
pub open spec fn holds(state: Seq<Fact>, run: Run) -> bool {
    forall|i: int|
        0 <= i < state.len() ==> run.bears(#[trigger] state[i], Local(i as usize))
}

/// Whether a run has a slot for each fact of a state.
pub open spec fn fits(state: Seq<Fact>) -> bool {
    state.len() <= usize::MAX
}

/// A slot is alike with the one its link of sameness points at.
proof fn roots_are_alike(state: Seq<Fact>, run: Run, slot: Local)
    requires
        holds(state, run),
    ensures
        (run.at)(state::spec_root_of(state, slot)) == (run.at)(slot),
        (run.tag)(state::spec_root_of(state, slot)) == (run.tag)(slot),
{
    if slot.0 < state.len() {
        assert(run.bears(state[slot.0 as int], Local(slot.0)));
    }
}

proof fn held_is_borne(state: Seq<Fact>, run: Run, slot: Local)
    requires
        holds(state, run),
        proper((run.at)(slot)),
    ensures
        run.bears(state::spec_held(state, slot), slot),
        (run.at)(state::spec_root_of(state, slot)) == (run.at)(slot),
        (run.tag)(state::spec_root_of(state, slot)) == (run.tag)(slot),
{
    if slot.0 < state.len() {
        assert(run.bears(state[slot.0 as int], Local(slot.0)));
    }
}

proof fn put_is_borne(state: Seq<Fact>, run: Run, slot: Local, fact: Fact)
    requires
        fits(state),
        holds(state, run),
        slot.0 < state.len() ==> run.bears(fact, slot),
    ensures
        holds(state::put(state, slot, fact), run),
        fits(state::put(state, slot, fact)),
{
    let after = state::put(state, slot, fact);
    assert forall|i: int| 0 <= i < after.len() implies run.bears(
        #[trigger] after[i],
        Local(i as usize),
    ) by {
        if slot.0 < state.len() && i == slot.0 {
        } else {
            assert(after[i] == state[i]);
        }
    }
}

/// A range that holds a number, or everything its type admits, still holds it
/// once it is narrowed by what is so of it.
proof fn narrowing_is_so(extent: Option<Bounds>, claim: Claim, k: Known, run: Run)
    requires
        k.wf(),
        claim.wf(),
        claim.allows(k, run.measure()),
        !(claim is Length),
        extent matches Some(range) ==> range.wf() && range.holds(k),
    ensures
        ({
            let first = match extent {
                Some(held) => Some(held),
                None => state::whole_of(claim),
            };
            first matches Some(held) ==> (Claim::Within(held).spec_refined(
                claim,
            ).spec_bounds() matches Some(range) ==> range.wf() && range.holds(k))
        }),
{
    let first = match extent {
        Some(held) => Some(held),
        None => state::whole_of(claim),
    };
    if let Some(held) = first {
        let end = claim.spec_anchor()->Some_0;
        k.stands();
        k.placed(k.min_val());
        k.placed(k.max_val());
        assert(end.at(end.min_val()) == k.at(k.min_val()));
        assert(end.at(end.max_val()) == k.at(k.max_val()));
        assert(held.wf() && held.holds(k));
        value::refining_is_conservative(Claim::Within(held), claim, k, run.measure());
    }
}

proof fn bearing_a_length(run: Run, fact: Fact, slot: Local, narrowed: Option<Bounds>)
    requires
        run.bears(fact, slot),
        narrowed matches Some(range) ==> range.wf() && range.holds((run.at)(slot)),
    ensures
        run.bears(Fact { extent: narrowed, ..fact }, slot),
{
}

/// Narrowing the length of the slice behind a slot by what is so of it says
/// nothing false.
proof fn stretching_is_borne(state: Seq<Fact>, run: Run, slot: Local, of: Local, claim: Claim)
    requires
        fits(state),
        holds(state, run),
        run.owns(Taught::Value(claim), slot),
        proper((run.at)(slot)),
        (run.at)(of) == (run.at)(slot),
    ensures
        holds(state::stretched(state, of, claim), run),
        fits(state::stretched(state, of, claim)),
{
    if of.0 < state.len() {
        let k = (run.at)(slot);
        let first = match state[of.0 as int].extent {
            Some(held) => Some(held),
            None => state::whole_of(claim),
        };
        assert(run.bears(state[of.0 as int], Local(of.0)));
        narrowing_is_so(state[of.0 as int].extent, claim, k, run);
        if let Some(held) = first {
            let narrowed = Claim::Within(held).spec_refined(claim).spec_bounds();
            let after = state::stretched(state, of, claim);
            assert forall|i: int| 0 <= i < after.len() implies run.bears(
                #[trigger] after[i],
                Local(i as usize),
            ) by {
                assert(run.bears(state[i], Local(i as usize)));
                if i == of.0 || state[i].value == Some(Claim::Length(of)) {
                    assert((run.at)(Local(i as usize)) == k);
                    bearing_a_length(run, state[i], Local(i as usize), narrowed);
                }
            }
        }
    }
}

/// A state that learns what is so of a run says nothing false of it.
pub proof fn learning_what_is_so(state: Seq<Fact>, run: Run, slot: Local, taught: Taught)
    requires
        fits(state),
        holds(state, run),
        proper((run.at)(slot)),
        run.owns(taught, slot),
    ensures
        holds(state::learned(state, slot, taught), run),
        fits(state::learned(state, slot, taught)),
{
    held_is_borne(state, run, slot);
    let k = (run.at)(slot);
    let held = state::spec_held(state, slot);
    match (taught, state::behind(state, slot)) {
        (Taught::Value(claim), Some(of)) => {
            stretching_is_borne(state, run, slot, of, claim);
        },
        (Taught::Alike(other), Some(mine)) => {
            if mine != other {
                held_is_borne(state, run, mine);
                put_is_borne(
                    state,
                    run,
                    mine,
                    Fact { paired: Some(other), ..state::spec_held(state, mine) },
                );
                let once = state::paired(state, mine, other);
                held_is_borne(once, run, other);
                put_is_borne(
                    once,
                    run,
                    other,
                    Fact { paired: Some(mine), ..state::spec_held(once, other) },
                );
            }
        },
        (Taught::Alike(_), None) => {},
        _ => {
            if let Taught::Value(claim) = taught {
                if let Some(was) = held.value {
                    value::refining_is_conservative(was, claim, k, run.measure());
                }
            }
            put_is_borne(state, run, slot, state::taught_fact(held, taught));
        },
    }
}

/// What is known of a slot, read through its link of sameness, is so.
pub proof fn what_is_known_is_so(state: Seq<Fact>, run: Run, slot: Local)
    requires
        holds(state, run),
        proper((run.at)(slot)),
    ensures
        run.bears(read::spec_known_at(state, slot), slot),
{
    let k = (run.at)(slot);
    held_is_borne(state, run, slot);
    let own = state::spec_held(state, slot);
    if let Some(root) = own.same {
        held_is_borne(state, run, root);
    }
    let held = read::spec_traced_back(state, own);
    assert(run.bears(held, slot));
    match held.value {
        Some(Claim::Length(of)) => {
            held_is_borne(state, run, of);
        },
        _ => {
            if let Some(rank) = held.order.spec_first() {
                if rank.of.0 < state.len() {
                    assert(run.bears(state[rank.of.0 as int], Local(rank.of.0)));
                    if let Some(extent) = state::spec_held(state, rank.of).extent {
                        let hi = extent.hi;
                        k.stands();
                        hi.stands();
                        if hi.fits(hi.val() - 1) {
                            hi.placed(hi.val() - 1);
                        }
                        if !hi.signed() {
                            let lo = Known { bits: 0, ..hi };
                            assert(lo == hi.at(0));
                            hi.placed(0);
                            let top = match rank.rel {
                                LenRel::Below => hi.fitted(hi.val() - 1),
                                LenRel::AtMost => Some(hi),
                            };
                            if let Some(top) = top {
                                if let Some(bound) = Bounds::spec_new(lo, top) {
                                    assert(bound.wf() && bound.holds(k));
                                    if let Some(known) = held.value {
                                        value::refining_is_conservative(
                                            known,
                                            Claim::Within(bound),
                                            k,
                                            run.measure(),
                                        );
                                    }
                                }
                            }
                        }
                    }
                }
            }
        },
    }
}

/// Whether a value is one an operand can have, where the slots it reads are
/// as the run has them.
pub open spec fn reads(lens: Lens, operand: Operand, k: Known, run: Run) -> bool {
    &&& suits(lens, operand, k)
    &&& lens.slot_read(operand) matches Some(slot) ==> (run.at)(slot) == k
}

/// Whether a value is one of an operand's type, and the value it names where
/// it names one.
pub open spec fn suits(lens: Lens, operand: Operand, k: Known) -> bool {
    &&& proper(k)
    &&& operand.spec_ty(lens.program) matches Some(ty) ==> (ty.kind matches Kind::Number(
        form,
        width,
    ) ==> k.ty.id == ty.id && k.ty.form == form && k.width == width)
    &&& operand.spec_constant() matches Some(known) ==> k == known
    &&& operand matches Operand::Checks(on) ==> (lens.program.spec_boolean(on) matches Some(known)
        ==> k == known)
}

/// What is known of an operand is so of the value a run reads there.
pub proof fn what_is_read_is_so(lens: Lens, state: Seq<Fact>, operand: Operand, k: Known, run: Run)
    requires
        holds(state, run),
        reads(lens, operand, k, run),
    ensures
        lens.fact(state, operand).wf(),
        lens.fact(state, operand).allows(k, run.measure()),
        lens.spread(state, operand) matches Some(span) ==> span.wf() && span.holds(k),
        lens.slot_read(operand) matches Some(slot) ==> run.bears(lens.fact(state, operand), slot),
{
    let fact = lens.fact(state, operand);
    if let Some(slot) = lens.slot_read(operand) {
        what_is_known_is_so(state, run, slot);
    }
    k.stands();
    k.placed(k.min_val());
    k.placed(k.max_val());
    let ty = operand.spec_ty(lens.program);
    if let Some(whole) = read::spec_whole(ty) {
        let seed = ty->Some_0.spec_seed()->Some_0;
        assert(seed.at(seed.min_val()) == k.at(k.min_val()));
        assert(seed.at(seed.max_val()) == k.at(k.max_val()));
        assert(whole.wf() && whole.holds(k));
        if let Some(claim) = fact.value {
            if claim.spec_ty() == Some(whole.lo.ty) {
                value::refining_is_conservative(Claim::Within(whole), claim, k, run.measure());
            }
        }
    }
}

/// The number a reading measures its local against.
pub open spec fn measured(against: Against, run: Run) -> Known {
    match against {
        Against::Constant(k) => k,
        Against::Length(of) => (run.at)(of),
        Against::Place(of) => (run.at)(of),
    }
}

/// Whether a reading says of a run what a comparison that came out `truth`
/// says of it.
///
/// A reading for one arm need not hold on the other. A local below another
/// that a length bounds is below that length, and one that is not can be on
/// either side of it.
pub open spec fn agrees(reading: Compared, truth: bool, run: Run) -> bool {
    let x = (run.at)(reading.local);
    let y = measured(reading.against, run);
    &&& proper(x)
    &&& proper(y)
    &&& x.same(y)
    &&& truth && reading.arm != Some(false) ==> value::verdict(reading.op, x.val(), y.val())
        == Some(true)
    &&& !truth && reading.arm != Some(true) && !(reading.against is Length && (reading.op is Lt
        || reading.op is Le)) ==> value::verdict(reading.op, x.val(), y.val()) == Some(false)
}

/// Whether a reading agrees with a comparison, if what it reads is as it was
/// when the comparison was made.
pub open spec fn agrees_if_kept(
    reading: Compared,
    truth: bool,
    was: spec_fn(Local) -> Known,
    run: Run,
) -> bool {
    was(reading.local) == (run.at)(reading.local) && (reading.source matches Some(source) ==> was(
        source,
    ) == (run.at)(source)) ==> agrees(reading, truth, run)
}

/// Whether each of some readings agrees with a comparison, if what it reads is
/// as it was.
pub open spec fn all_agree(
    readings: Seq<Compared>,
    truth: bool,
    was: spec_fn(Local) -> Known,
    run: Run,
) -> bool {
    forall|i: int|
        0 <= i < readings.len() ==> agrees_if_kept(#[trigger] readings[i], truth, was, run)
}

/// Whether a reading that may be made agrees with a comparison, if what it
/// reads is as it was.
pub open spec fn may_agree(
    reading: Option<Compared>,
    truth: bool,
    was: spec_fn(Local) -> Known,
    run: Run,
) -> bool {
    reading matches Some(r) ==> agrees_if_kept(r, truth, was, run)
}

/// Whether a value is the one an operand had when a comparison was made.
pub open spec fn had(lens: Lens, operand: Operand, k: Known, was: spec_fn(Local) -> Known) -> bool {
    &&& suits(lens, operand, k)
    &&& lens.slot_read(operand) matches Some(slot) ==> was(slot) == k
}

/// What measures one operand of a comparison agrees with the comparison.
#[verifier::rlimit(40)]
proof fn one_side_agrees(
    lens: Lens,
    state: Seq<Fact>,
    op: BinOp,
    mine: Operand,
    other: Operand,
    a: Known,
    b: Known,
    truth: bool,
    was: spec_fn(Local) -> Known,
    run: Run,
)
    requires
        holds(state, run),
        had(lens, mine, a, was),
        had(lens, other, b, was),
        a.same(b),
        value::verdict(op, a.val(), b.val()) == Some(truth),
    ensures
        ({
            let local = lens.slot_read(mine);
            let negated = value::spec_negated(op);
            &&& may_agree(
                branch::reading(local, lens.named(state, other), op, None),
                truth,
                was,
                run,
            )
            &&& may_agree(
                branch::reading(local, lens.chained_to(state, other, op), op, None),
                truth,
                was,
                run,
            )
            &&& may_agree(
                branch::reading(local, lens.ended(state, other, op), op, Some(true)),
                truth,
                was,
                run,
            )
            &&& may_agree(
                branch::reading(local, lens.ended(state, other, negated), op, Some(false)),
                truth,
                was,
                run,
            )
            &&& may_agree(
                branch::reading(local, lens.sited(state, other), op, None),
                truth,
                was,
                run,
            )
        }),
{
    if let Some(local) = lens.slot_read(mine) {
        let kept = match lens.slot_read(other) {
            Some(slot) => was(slot) == (run.at)(slot),
            None => true,
        };
        if was(local) == (run.at)(local) && kept {
            what_is_read_is_so(lens, state, other, b, run);
            if let Some(slot) = lens.slot_read(other) {
                held_is_borne(state, run, slot);
            }
            let fact = lens.fact(state, other);
            if let Some(rank) = fact.order.spec_first() {
                assert(lens.slot_read(other) is Some ==> of_one_type(Some(rank), b, run));
            }
            if let Some(span) = lens.spread(state, other) {
                assert(span.wf() && span.holds(b));
                assert(proper(span.lo) && proper(span.hi));
            }
            let negated = value::spec_negated(op);
            assert(may_agree(
                branch::reading(Some(local), lens.named(state, other), op, None),
                truth,
                was,
                run,
            ));
            assert(may_agree(
                branch::reading(Some(local), lens.chained_to(state, other, op), op, None),
                truth,
                was,
                run,
            ));
            assert(may_agree(
                branch::reading(Some(local), lens.ended(state, other, op), op, Some(true)),
                truth,
                was,
                run,
            ));
            assert(may_agree(
                branch::reading(Some(local), lens.ended(state, other, negated), op, Some(false)),
                truth,
                was,
                run,
            ));
            assert(may_agree(
                branch::reading(Some(local), lens.sited(state, other), op, None),
                truth,
                was,
                run,
            ));
        }
    }
}

proof fn offering_agrees(
    found: Seq<Compared>,
    reading: Option<Compared>,
    truth: bool,
    was: spec_fn(Local) -> Known,
    run: Run,
)
    requires
        all_agree(found, truth, was, run),
        may_agree(reading, truth, was, run),
    ensures
        all_agree(branch::offered(found, reading), truth, was, run),
{
}

/// Every reading of a comparison agrees with it.
proof fn both_sides_agree(
    lens: Lens,
    state: Seq<Fact>,
    op: BinOp,
    left: Operand,
    right: Operand,
    x: Known,
    y: Known,
    truth: bool,
    was: spec_fn(Local) -> Known,
    run: Run,
)
    requires
        holds(state, run),
        had(lens, left, x, was),
        had(lens, right, y, was),
        x.same(y),
        value::verdict(op, x.val(), y.val()) == Some(truth),
    ensures
        all_agree(lens.compared(state, op, left, right), truth, was, run),
{
    let near = lens.slot_read(left);
    let far = lens.slot_read(right);
    let back = value::spec_mirrored(op);
    value::readings_agree(op, x.val(), y.val());
    one_side_agrees(lens, state, op, left, right, x, y, truth, was, run);
    one_side_agrees(lens, state, back, right, left, y, x, truth, was, run);
    let s0 = Seq::<Compared>::empty();
    let c1 = branch::reading(near, lens.named(state, right), op, None);
    offering_agrees(s0, c1, truth, was, run);
    let s1 = branch::offered(s0, c1);
    let c2 = branch::reading(far, lens.named(state, left), back, None);
    offering_agrees(s1, c2, truth, was, run);
    let s2 = branch::offered(s1, c2);
    let c3 = branch::reading(near, lens.chained_to(state, right, op), op, None);
    offering_agrees(s2, c3, truth, was, run);
    let s3 = branch::offered(s2, c3);
    let c4 = branch::reading(far, lens.chained_to(state, left, back), back, None);
    offering_agrees(s3, c4, truth, was, run);
    let s4 = branch::offered(s3, c4);
    let c5 = branch::reading(near, lens.ended(state, right, op), op, Some(true));
    offering_agrees(s4, c5, truth, was, run);
    let s5 = branch::offered(s4, c5);
    let c6 = branch::reading(far, lens.ended(state, left, back), back, Some(true));
    offering_agrees(s5, c6, truth, was, run);
    let s6 = branch::offered(s5, c6);
    let c7 = branch::reading(
        near,
        lens.ended(state, right, value::spec_negated(op)),
        op,
        Some(false),
    );
    offering_agrees(s6, c7, truth, was, run);
    let s7 = branch::offered(s6, c7);
    let c8 = branch::reading(
        far,
        lens.ended(state, left, value::spec_negated(back)),
        back,
        Some(false),
    );
    offering_agrees(s7, c8, truth, was, run);
    let s8 = branch::offered(s7, c8);
    let c9 = branch::reading(near, lens.sited(state, right), op, None);
    offering_agrees(s8, c9, truth, was, run);
    let s9 = branch::offered(s8, c9);
    let c10 = branch::reading(far, lens.sited(state, left), back, None);
    offering_agrees(s9, c10, truth, was, run);
}

/// Whether a statement can give a slot another value. One that starts or ends
/// the life of a local gives it none.
pub open spec fn rewrites(lens: Lens, stmt: Statement, slot: Local) -> bool {
    lens.touches(stmt, slot) && !(stmt is StorageLive || stmt is StorageDead)
}

/// Whether a run keeps what it had in the slots that no statement from a
/// position on can give another value.
pub open spec fn carries(
    lens: Lens,
    stmts: Seq<Statement>,
    from: int,
    was: spec_fn(Local) -> Known,
    run: Run,
) -> bool {
    forall|slot: Local|
        (forall|i: int| from <= i < stmts.len() ==> !rewrites(lens, #[trigger] stmts[i], slot))
            ==> was(slot) == #[trigger] (run.at)(slot)
}

proof fn standing_agrees(
    lens: Lens,
    found: Seq<Compared>,
    result: Local,
    stmts: Seq<Statement>,
    from: int,
    state: Seq<Fact>,
    truth: bool,
    was: spec_fn(Local) -> Known,
    run: Run,
    n: nat,
)
    requires
        holds(state, run),
        0 <= from <= stmts.len(),
        n <= found.len(),
        all_agree(found, truth, was, run),
        carries(lens, stmts, from, was, run),
    ensures
        forall|i: int|
            0 <= i < branch::left_standing(
                lens,
                found,
                result,
                stmts.skip(from),
                state,
                n,
            ).len() ==> agrees(
                #[trigger] branch::left_standing(lens, found, result, stmts.skip(from), state, n)[i],
                truth,
                run,
            ),
    decreases n,
{
    if n > 0 {
        let after = stmts.skip(from);
        standing_agrees(
            lens,
            found,
            result,
            stmts,
            from,
            state,
            truth,
            was,
            run,
            (n - 1) as nat,
        );
        let reading = found[n - 1];
        if let Some(kept) = lens.standing(result, after, state, reading) {
            let local = state::spec_root_of(state, reading.local);
            assert forall|i: int| from <= i < stmts.len() implies !rewrites(
                lens,
                #[trigger] stmts[i],
                reading.local,
            ) && (reading.source matches Some(source) ==> !rewrites(lens, stmts[i], source)) by {
                assert(after[i - from] == stmts[i]);
                assert(!lens.undoes(result, local, reading, after[i - from]));
            }
            assert(was(reading.local) == (run.at)(reading.local));
            if let Some(source) = reading.source {
                assert(was(source) == (run.at)(source));
            }
            assert(agrees_if_kept(found[n - 1], truth, was, run));
            assert(agrees(reading, truth, run));
            held_is_borne(state, run, reading.local);
            assert(agrees(kept, truth, run));
            let before = branch::left_standing(lens, found, result, after, state, (n - 1) as nat);
            let now = branch::left_standing(lens, found, result, after, state, n);
            assert(now == before.push(kept));
            assert forall|i: int| 0 <= i < now.len() implies agrees(
                #[trigger] now[i],
                truth,
                run,
            ) by {
                if i < before.len() {
                    assert(now[i] == before[i]);
                }
            }
        }
    }
}

/// Whether a local was last written by the comparison at a position.
pub open spec fn compared_at(stmts: Seq<Statement>, result: Local, at: int) -> bool {
    &&& 0 <= at < stmts.len()
    &&& match stmts[at] {
        Statement::Assign(place, Rvalue::Binary(op, _, _)) => place.steps@.len() == 0
            && place.local == result && value::verdict(op, 0, 0) is Some,
        _ => false,
    }
    &&& forall|i: int|
        at < i < stmts.len() ==> !places::spec_writes(#[trigger] stmts[i], result)
}

/// Whether a comparison came out `truth` on the values `x` and `y`, which the
/// slots it read hold still once it is made, and a run keeps what no later
/// statement overwrites.
pub open spec fn came_out(
    lens: Lens,
    stmts: Seq<Statement>,
    at: int,
    x: Known,
    y: Known,
    truth: bool,
    was: spec_fn(Local) -> Known,
    run: Run,
) -> bool {
    match stmts[at] {
        Statement::Assign(_, Rvalue::Binary(op, left, right)) => {
            &&& had(lens, left, x, was)
            &&& had(lens, right, y, was)
            &&& x.same(y)
            &&& value::verdict(op, x.val(), y.val()) == Some(truth)
            &&& carries(lens, stmts, at + 1, was, run)
        },
        _ => false,
    }
}

proof fn last_of_all(stmts: Seq<Statement>, local: Local, at: int, n: nat)
    requires
        0 <= at < n <= stmts.len(),
        places::spec_writes(stmts[at], local),
        forall|i: int| at < i < stmts.len() ==> !places::spec_writes(#[trigger] stmts[i], local),
    ensures
        branch::last_write(stmts, local, n) == Some(at as nat),
    decreases n,
{
    if at < n - 1 {
        last_of_all(stmts, local, at, (n - 1) as nat);
    }
}

proof fn last_is_last(stmts: Seq<Statement>, local: Local, n: nat)
    requires
        n <= stmts.len(),
        branch::last_write(stmts, local, n) is Some,
    ensures
        ({
            let at = branch::last_write(stmts, local, n)->Some_0;
            &&& at < n
            &&& places::spec_writes(stmts[at as int], local)
            &&& forall|i: int| at < i < n ==> !places::spec_writes(#[trigger] stmts[i], local)
        }),
    decreases n,
{
    if n > 0 && !places::spec_writes(stmts[n - 1], local) {
        last_is_last(stmts, local, (n - 1) as nat);
    }
}

/// Every reading kept of the comparison a boolean holds says of a run what the
/// comparison, with the operator as it is written, says of it.
///
/// The operator of a reading holds between what the reading measures exactly
/// when the comparison did, for the arm that the reading is for.
pub proof fn each_reading_agrees_with_its_comparison(
    lens: Lens,
    stmts: Seq<Statement>,
    result: Local,
    state: Seq<Fact>,
    at: int,
    x: Known,
    y: Known,
    truth: bool,
    was: spec_fn(Local) -> Known,
    run: Run,
    i: int,
)
    requires
        holds(state, run),
        compared_at(stmts, result, at),
        came_out(lens, stmts, at, x, y, truth, was, run),
        0 <= i < lens.comparison_behind(stmts, result, state).len(),
    ensures
        agrees(lens.comparison_behind(stmts, result, state)[i], truth, run),
{
    last_of_all(stmts, result, at, stmts.len());
    if let Statement::Assign(_, Rvalue::Binary(op, left, right)) = stmts[at] {
        both_sides_agree(lens, state, op, left, right, x, y, truth, was, run);
        let found = lens.compared(state, op, left, right);
        standing_agrees(
            lens,
            found,
            result,
            stmts,
            at + 1,
            state,
            truth,
            was,
            run,
            found.len(),
        );
    }
}

/// What a reading that agrees with a comparison teaches is so.
proof fn agreeing_teaches_what_is_so(reading: Compared, truth: bool, run: Run)
    requires
        agrees(reading, truth, run),
        reading.arm != Some(!truth),
    ensures
        value::spec_fact_of(reading.op, reading.against, truth) matches Some(taught) ==> run.owns(
            taught,
            reading.local,
        ),
{
    let x = (run.at)(reading.local);
    let y = measured(reading.against, run);
    let op = if truth {
        reading.op
    } else {
        value::spec_negated(reading.op)
    };
    value::readings_agree(reading.op, x.val(), y.val());
    match reading.against {
        Against::Constant(k) => {
            assert(value::verdict(op, x.val(), k.val()) == Some(true));
            value::constants_teach_conservatively(op, k, x, run.measure());
            k.stands();
            k.placed(k.min_val());
            k.placed(k.max_val());
            if k.fits(k.val() - 1) {
                k.placed(k.val() - 1);
            }
            if k.fits(k.val() + 1) {
                k.placed(k.val() + 1);
            }
            reveal_with_fuel(value::ones, 2);
            value::ones_grow(1, k.width as nat);
        },
        _ => {
            if x.val() == y.val() {
                x.told_apart(y);
            }
        },
    }
}

proof fn comparing_keeps_what_holds(
    state: Seq<Fact>,
    readings: Seq<Compared>,
    truth: bool,
    run: Run,
    n: nat,
)
    requires
        fits(state),
        holds(state, run),
        n <= readings.len(),
        forall|i: int| 0 <= i < readings.len() ==> agrees(#[trigger] readings[i], truth, run),
    ensures
        holds(state::compared_so(state, readings, truth, n), run),
        fits(state::compared_so(state, readings, truth, n)),
    decreases n,
{
    if n > 0 {
        comparing_keeps_what_holds(state, readings, truth, run, (n - 1) as nat);
        let reading = readings[n - 1];
        if reading.arm != Some(!truth) {
            agreeing_teaches_what_is_so(reading, truth, run);
            if let Some(taught) = value::spec_fact_of(reading.op, reading.against, truth) {
                learning_what_is_so(
                    state::compared_so(state, readings, truth, (n - 1) as nat),
                    run,
                    reading.local,
                    taught,
                );
            }
        }
    }
}

/// Whether a number is that of a value of one type.
pub open spec fn names(k: Known, value: u128) -> bool {
    proper(Known { bits: value, ..k })
}

/// Whether a run got to a branch on `k` through the statements before it: what
/// a comparison left in the slot read is what `k` says of it.
pub open spec fn arrived(
    lens: Lens,
    stmts: Seq<Statement>,
    discr: Operand,
    state: Seq<Fact>,
    k: Known,
    x: Known,
    y: Known,
    was: spec_fn(Local) -> Known,
    run: Run,
) -> bool {
    &&& reads(lens, discr, k, run)
    &&& forall|at: int|
        lens.source_of(state, discr) is Some && #[trigger] compared_at(
            stmts,
            lens.source_of(state, discr)->Some_0,
            at,
        ) ==> came_out(lens, stmts, at, x, y, k.bits == 1, was, run)
}

/// What an arm teaches holds of every run that takes it: a state that holds of
/// a run before a branch, once it is refined for an arm that names what the
/// run branched on, or for the fallback that avoids one value it is not, holds
/// of the run still.
pub proof fn an_arm_keeps_what_holds(
    lens: Lens,
    stmts: Seq<Statement>,
    discr: Operand,
    state: Seq<Fact>,
    value: u128,
    matched: bool,
    k: Known,
    x: Known,
    y: Known,
    was: spec_fn(Local) -> Known,
    run: Run,
)
    requires
        fits(state),
        holds(state, run),
        arrived(lens, stmts, discr, state, k, x, y, was, run),
        names(k, value),
        (k.bits == value) == matched,
    ensures
        holds(
            state::spec_refined(state, lens.subject_of(stmts, discr, state), Some(value), matched),
            run,
        ),
        fits(
            state::spec_refined(state, lens.subject_of(stmts, discr, state), Some(value), matched),
        ),
{
    if let Some(subject) = lens.subject_of(stmts, discr, state) {
        let slot = lens.slot_read(discr)->Some_0;
        let seed = subject.seed;
        held_is_borne(state, run, slot);
        value::ones_fit(seed.width as nat);
        vstd::arithmetic::div_mod::lemma_small_mod(value as nat, value::span(seed.width as nat));
        let named = Known {
            bits: value::low_bits(value as int, seed.width as nat) as u128,
            ..seed
        };
        assert(named == Known { bits: value, ..k });
        let taught = Taught::Value(state::spec_settle(named, matched));
        assert(run.owns(taught, subject.read));
        learning_what_is_so(state, run, subject.read, taught);
        let truth = if matched {
            value == 1
        } else {
            value == 0
        };
        assert forall|i: int| 0 <= i < subject.compared.len() implies agrees(
            #[trigger] subject.compared[i],
            truth,
            run,
        ) by {
            assert(seed.ty.form is Bool);
            assert(truth == (k.bits == 1));
            if branch::last_write(stmts, subject.read, stmts.len()) is Some {
                last_is_last(stmts, subject.read, stmts.len());
                let at = branch::last_write(stmts, subject.read, stmts.len())->Some_0;
                assert(compared_at(stmts, subject.read, at as int));
                each_reading_agrees_with_its_comparison(
                    lens,
                    stmts,
                    subject.read,
                    state,
                    at as int,
                    x,
                    y,
                    truth,
                    was,
                    run,
                    i,
                );
            }
        }
        comparing_keeps_what_holds(
            state::learned(state, subject.read, taught),
            subject.compared,
            truth,
            run,
            subject.compared.len(),
        );
    }
}

/// Whether a run that branches on `k` reads a discriminant there: the tag of
/// the enum it was read from, which is one of that enum's.
pub open spec fn discriminates(
    lens: Lens,
    stmts: Seq<Statement>,
    discr: Operand,
    k: Known,
    run: Run,
) -> bool {
    forall|at: int, slot: Local| #[trigger]
        tag_read_from(lens, stmts, discr, at, slot) ==> (run.tag)(slot) == k.bits && (
        match stmts[at] {
            Statement::Assign(_, Rvalue::Discriminant(of)) => lens.program.spec_enum_of(
                of.ty,
            ) matches Some(e) ==> e.tags@.contains(k.bits),
            _ => true,
        })
}

/// Whether what an operand reads was last written by the statement at a
/// position, which read the discriminant of what a slot holds still.
pub open spec fn tag_read_from(
    lens: Lens,
    stmts: Seq<Statement>,
    discr: Operand,
    at: int,
    slot: Local,
) -> bool {
    &&& 0 <= at < stmts.len()
    &&& match (discr, stmts[at]) {
        (Operand::Read(place, _), Statement::Assign(to, Rvalue::Discriminant(of))) => {
            &&& place.steps@.len() == 0
            &&& to.steps@.len() == 0
            &&& to.local == place.local
            &&& forall|i: int|
                at < i < stmts.len() ==> !places::spec_writes(#[trigger] stmts[i], place.local)
            &&& lens.slot_of(of) == Some(slot)
        },
        _ => false,
    }
    &&& forall|i: int| at < i < stmts.len() ==> !rewrites(lens, #[trigger] stmts[i], slot)
}

/// The place a branch finds its discriminant was read from is the one it was.
proof fn tagged_truly(
    lens: Lens,
    stmts: Seq<Statement>,
    discr: Operand,
    state: Seq<Fact>,
    k: Known,
    run: Run,
)
    requires
        holds(state, run),
        discriminates(lens, stmts, discr, k, run),
    ensures
        lens.tagged(stmts, discr, state) matches Some(tagged) ==> (run.tag)(tagged.slot) == k.bits
            && (lens.program.spec_enum_of(tagged.ty) matches Some(e) ==> e.tags@.contains(k.bits)),
{
    if let Some(tagged) = lens.tagged(stmts, discr, state) {
        if let Operand::Read(place, _) = discr {
            let read = place.local;
            last_is_last(stmts, read, stmts.len());
            let at = branch::last_write(stmts, read, stmts.len())->Some_0 as int;
            if let Statement::Assign(to, Rvalue::Discriminant(of)) = stmts[at] {
                let slot = lens.slot_of(of)->Some_0;
                assert forall|i: int| at < i < stmts.len() implies !rewrites(
                    lens,
                    #[trigger] stmts[i],
                    slot,
                ) by {
                    assert(!lens.touches_either(stmts[i], read, slot));
                }
                assert(tag_read_from(lens, stmts, discr, at, slot));
                roots_are_alike(state, run, slot);
            }
        }
    }
}

proof fn teaching_the_tag(
    state: Seq<Fact>,
    tagged: Option<branch::Tagged>,
    tag: Option<u128>,
    run: Run,
)
    requires
        fits(state),
        holds(state, run),
        match (tagged, tag) {
            (Some(t), Some(tag)) => (run.tag)(t.slot) == tag,
            _ => true,
        },
    ensures
        holds(branch::tag_taught(state, tagged, tag), run),
        fits(branch::tag_taught(state, tagged, tag)),
{
    if let (Some(t), Some(tag)) = (tagged, tag) {
        if t.slot.0 < state.len() {
            assert(run.bears(state[t.slot.0 as int], Local(t.slot.0)));
        }
        put_is_borne(
            state,
            run,
            t.slot,
            Fact { tag: Some(tag), ..state::spec_held(state, t.slot) },
        );
    }
}

proof fn spared(tags: Seq<u128>, taken: Seq<u128>, tag: u128, n: nat)
    requires
        n <= tags.len(),
        !taken.contains(tag),
        exists|i: int| 0 <= i < n && tags[i] == tag,
    ensures
        branch::spare(tags, taken, n).contains(tag),
    decreases n,
{
    if n > 0 {
        let before = branch::spare(tags, taken, (n - 1) as nat);
        if tags[n - 1] == tag {
            assert(before.push(tag)[before.len() as int] == tag);
        } else {
            spared(tags, taken, tag, (n - 1) as nat);
            let j = choose|j: int| 0 <= j < before.len() && before[j] == tag;
            assert(before.push(tags[n - 1])[j] == tag);
        }
    }
}

/// Whether a state that holds of a run was sent to a block.
pub open spec fn reaches_truly(sent: Seq<Sent>, to: usize, run: Run) -> bool {
    exists|i: int|
        0 <= i < sent.len() && (#[trigger] sent[i]).to == to && holds(sent[i].state, run)
}

proof fn arms_reach(
    lens: Lens,
    stmts: Seq<Statement>,
    discr: Operand,
    arms: Seq<Arm>,
    state: Seq<Fact>,
    at: int,
    run: Run,
    n: nat,
)
    requires
        0 <= at < n <= arms.len(),
        !lens.rules_out(state, discr, arms[at].value),
        holds(lens.arm_state(stmts, discr, state, arms[at].value), run),
    ensures
        reaches_truly(lens.arms_sent(stmts, discr, arms, state, n), arms[at].target, run),
    decreases n,
{
    let before = lens.arms_sent(stmts, discr, arms, state, (n - 1) as nat);
    let now = lens.arms_sent(stmts, discr, arms, state, n);
    if at == n - 1 {
        assert(now[before.len() as int].to == arms[at].target);
    } else {
        arms_reach(lens, stmts, discr, arms, state, at, run, (n - 1) as nat);
        let i = choose|i: int|
            0 <= i < before.len() && (#[trigger] before[i]).to == arms[at].target && holds(
                before[i].state,
                run,
            );
        assert(now[i] == before[i]);
    }
}

/// Whether a branch on `k` goes to a block: the target of an arm that names
/// it, or the fallback where none does.
pub open spec fn goes(arms: Seq<Arm>, otherwise: usize, k: Known, to: usize) -> bool {
    ||| exists|i: int| 0 <= i < arms.len() && (#[trigger] arms[i]).value == k.bits && arms[i].target
        == to
    ||| to == otherwise && forall|i: int|
        0 <= i < arms.len() ==> (#[trigger] arms[i]).value != k.bits
}

/// A run that takes a branch is sent on with what holds of it: the block it
/// goes to is sent a state, and that state says nothing false of the run.
pub proof fn a_branch_sends_what_holds(
    lens: Lens,
    stmts: Seq<Statement>,
    discr: Operand,
    arms: Seq<Arm>,
    otherwise: usize,
    state: Seq<Fact>,
    to: usize,
    k: Known,
    x: Known,
    y: Known,
    was: spec_fn(Local) -> Known,
    run: Run,
)
    requires
        fits(state),
        holds(state, run),
        arrived(lens, stmts, discr, state, k, x, y, was, run),
        discriminates(lens, stmts, discr, k, run),
        forall|i: int| 0 <= i < arms.len() ==> names(k, (#[trigger] arms[i]).value),
        goes(arms, otherwise, k, to),
    ensures
        reaches_truly(lens.branch_sent(stmts, discr, arms, otherwise, state), to, run),
{
    let fact = lens.fact(state, discr);
    let taken = branch::named_values(arms);
    let sent = lens.branch_sent(stmts, discr, arms, otherwise, state);
    let named = lens.arms_sent(stmts, discr, arms, state, arms.len());
    what_is_read_is_so(lens, state, discr, k, run);
    if value::spec_pinned(fact) is Some {
        value::pinning_is_conservative(fact, k, run.measure());
    }
    tagged_truly(lens, stmts, discr, state, k, run);
    let tagged = lens.tagged(stmts, discr, state);
    if exists|i: int| 0 <= i < arms.len() && (#[trigger] arms[i]).value == k.bits && arms[i].target
        == to {
        let at = choose|i: int|
            0 <= i < arms.len() && (#[trigger] arms[i]).value == k.bits && arms[i].target == to;
        let value = arms[at].value;
        an_arm_keeps_what_holds(lens, stmts, discr, state, value, true, k, x, y, was, run);
        let refined = state::spec_refined(
            state,
            lens.subject_of(stmts, discr, state),
            Some(value),
            true,
        );
        teaching_the_tag(refined, tagged, Some(value), run);
        arms_reach(lens, stmts, discr, arms, state, at, run, arms.len());
        let i = choose|i: int|
            0 <= i < named.len() && (#[trigger] named[i]).to == to && holds(named[i].state, run);
        assert(sent[i] == named[i]);
    } else {
        assert forall|i: int| 0 <= i < taken.len() implies taken[i] != k.bits by {
            assert(taken[i] == arms[i].value);
        }
        assert(!taken.contains(k.bits));
        if let Some(span) = lens.spread(state, discr) {
            if span.lo.val() >= 0 {
                span.lo.stands();
                span.hi.stands();
                k.stands();
                assert(span.lo.bits <= k.bits <= span.hi.bits);
            }
        }
        let rest = if taken.len() == 1 {
            Some(taken[0])
        } else {
            None
        };
        if let Some(value) = rest {
            assert(taken[0] == arms[0].value);
            an_arm_keeps_what_holds(lens, stmts, discr, state, value, false, k, x, y, was, run);
        }
        let refined = state::spec_refined(
            state,
            lens.subject_of(stmts, discr, state),
            rest,
            false,
        );
        if let Some(t) = tagged {
            if let Some(e) = lens.program.spec_enum_of(t.ty) {
                spared(e.tags@, taken, k.bits, e.tags@.len());
                let left = branch::spare(e.tags@, taken, e.tags@.len());
                let j = choose|j: int| 0 <= j < left.len() && left[j] == k.bits;
                assert(left[j] == k.bits);
            }
        }
        teaching_the_tag(refined, tagged, lens.leftover(tagged, taken), run);
        assert(sent[named.len() as int].to == to);
    }
}

/// A run that comes to a check is sent on with what holds of it: past the
/// check where the condition is what it expects, and to the cleanup path where
/// it is not and there is one.
pub proof fn a_check_sends_what_holds(
    lens: Lens,
    stmts: Seq<Statement>,
    check: Assert,
    state: Seq<Fact>,
    k: Known,
    x: Known,
    y: Known,
    was: spec_fn(Local) -> Known,
    run: Run,
)
    requires
        fits(state),
        holds(state, run),
        arrived(lens, stmts, check.cond, state, k, x, y, was, run),
        k.ty.form is Bool,
    ensures
        (k.bits == 1) == check.expected ==> reaches_truly(
            lens.check_sent(stmts, check, state),
            check.target,
            run,
        ),
        (k.bits == 1) != check.expected ==> (check.unwind matches Unwind::Cleanup(target)
            ==> reaches_truly(lens.check_sent(stmts, check, state), target, run)),
{
    let fact = lens.fact(state, check.cond);
    what_is_read_is_so(lens, state, check.cond, k, run);
    let sent = lens.check_sent(stmts, check, state);
    if value::spec_pinned(fact) is Some {
        value::pinning_is_conservative(fact, k, run.measure());
        assert(holds(sent[0].state, run) || sent.len() == 0);
    } else {
        let value = if check.expected {
            1u128
        } else {
            0u128
        };
        value::ones_grow(1, k.width as nat);
        reveal_with_fuel(value::ones, 2);
        if (k.bits == 1) == check.expected {
            an_arm_keeps_what_holds(
                lens,
                stmts,
                check.cond,
                state,
                value,
                true,
                k,
                x,
                y,
                was,
                run,
            );
            assert(sent[0].to == check.target);
        } else if check.unwind is Cleanup {
            assert(holds(sent[1].state, run));
        }
    }
}

/// Whether an operator makes `k` of `x` and `y`.
///
/// A sum, a difference or a product that the type cannot hold, a division
/// that is not of one unsigned number by another, and a shift that loses
/// bits are left open.
#[verifier::opaque]
pub open spec fn makes(lens: Lens, op: BinOp, x: Known, y: Known, k: Known) -> bool {
    &&& value::verdict(op, x.val(), y.val()) matches Some(truth) ==> x.same(y) && (
    lens.program.boolean.spec_seed() matches Some(seed) ==> k.same(seed) && (k.bits == 1) == truth
        && k.bits <= 1)
    &&& op is Add ==> k.same(x) && x.same(y) && (x.fits(x.val() + y.val()) ==> k.val() == x.val()
        + y.val())
    &&& op is Sub ==> k.same(x) && x.same(y) && (x.fits(x.val() - y.val()) ==> k.val() == x.val()
        - y.val())
    &&& op is Mul ==> k.same(x) && x.same(y) && (x.fits(x.val() * y.val()) ==> k.val() == x.val()
        * y.val())
    &&& op is Div ==> k.same(x) && x.same(y) && y.val() != 0 && (!x.signed() ==> k.val() == x.val()
        / y.val())
    &&& op is Rem ==> k.same(x) && x.same(y) && y.val() != 0 && (!x.signed() ==> k.val() == x.val()
        % y.val())
    &&& op is BitAnd ==> x.same(y) && k == (Known { bits: x.bits & y.bits, ..x })
    &&& op is BitOr ==> x.same(y) && k == (Known { bits: x.bits | y.bits, ..x })
    &&& op is BitXor ==> x.same(y) && k == (Known { bits: x.bits ^ y.bits, ..x })
    &&& op is Shl || op is ShlUnchecked ==> k.same(x) && (0 <= y.val() < x.width && x.fits(
        x.val() * value::span(y.val() as nat),
    ) ==> k.val() == x.val() * value::span(y.val() as nat))
    &&& op is Shr || op is ShrUnchecked ==> k.same(x) && (0 <= y.val() < x.width ==> k.val()
        == x.val() / (value::span(y.val() as nat) as int))
}

/// Whether an assignment computes `k`, with the tag that goes with it, where
/// its operands read `x` and `y`.
pub open spec fn computes(
    lens: Lens,
    rvalue: Rvalue,
    x: Known,
    y: Known,
    run: Run,
    k: Known,
    tag: u128,
) -> bool {
    &&& proper(k)
    &&& match rvalue {
        Rvalue::Use(operand) => reads(lens, operand, k, run) && (lens.slot_read(
            operand,
        ) matches Some(slot) ==> (run.tag)(slot) == tag),
        Rvalue::IntCast(operand, ty) => reads(lens, operand, x, run) && (ty matches Some(t) ==> (
        t.spec_seed() matches Some(seed) ==> !(seed.ty.form is Bool) && k.same(seed) && k.bits
            == x.val() % (value::span(k.width as nat) as int))),
        Rvalue::Unsize(operand) => (read::array_length(
            operand.spec_ty(lens.program),
        ) matches Some(count) ==> (lens.program.size.spec_seed() matches Some(seed) ==> count
            <= value::ones(seed.width as nat) ==> k.same(seed) && k.bits == count)),
        Rvalue::Binary(op, left, right) => reads(lens, left, x, run) && reads(lens, right, y, run)
            && makes(lens, op, x, y, k),
        Rvalue::Not(operand) => reads(lens, operand, x, run) && k.same(x) && if x.ty.form is Bool {
            (k.bits == 1) == (x.bits == 0)
        } else {
            k.bits + x.bits == value::ones(x.width as nat)
        },
        Rvalue::Metadata(operand) => lens.slot_read(operand) matches Some(slot) ==> k == (run.at)(
            slot,
        ),
        Rvalue::Address(place, _, _) => place.steps@ == seq![Step::Deref] ==> k == (run.at)(
            place.local,
        ),
        Rvalue::Discriminant(place) => (lens.slot_of(place) matches Some(slot) ==> (
        lens.program.spec_enum_of(place.ty) matches Some(e) ==> (mir::spec_value_at(
            e.read_at,
            (run.tag)(slot),
        ) matches Some(read) ==> k == read))),
        Rvalue::Aggregate(Build::Variant(at, ty), _) => lens.program.spec_enum_of(ty) matches Some(
            e,
        ) ==> at < e.tags@.len() ==> tag == e.tags@[at as int],
        Rvalue::Aggregate(Build::Fat, fields) => fields@.len() > 1 ==> reads(
            lens,
            fields@[1],
            k,
            run,
        ),
        _ => true,
    }
}

/// The range a sum, a difference or a product is known to lie in holds it.
proof fn spanning_is_so(lens: Lens, op: BinOp, m: Bounds, n: Bounds, x: Known, y: Known, k: Known)
    requires
        m.wf() && n.wf() && x.wf() && y.wf() && k.wf(),
        m.holds(x),
        n.holds(y),
        makes(lens, op, x, y, k),
    ensures
        ranges::spec_spanned(op, m, n) matches Some(claim) ==> claim is Within && claim->Within_0.holds(
            k,
        ) && (op is Add ==> k.val() == x.val() + y.val()),
{
    reveal(makes);
    if ranges::spec_spanned(op, m, n) is Some {
        ranges::arithmetic_is_conservative(op, m, n, x, y);
        x.placed(Known::outcome(op, x.val(), y.val())->Some_0);
        k.told_apart(x.spec_arith(op, y)->Some_0);
    }
}

/// The range a quotient or a remainder is known to lie in holds it.
proof fn splitting_is_so(lens: Lens, op: BinOp, m: Bounds, n: Bounds, x: Known, y: Known, k: Known)
    requires
        m.wf() && n.wf() && x.wf() && y.wf() && k.wf(),
        m.holds(x),
        n.holds(y),
        op is Div || op is Rem,
        makes(lens, op, x, y, k),
    ensures
        ranges::spec_split(op, m, n) matches Some(claim) ==> claim is Within && claim->Within_0.holds(
            k,
        ),
{
    reveal(makes);
    if ranges::spec_split(op, m, n) is Some {
        ranges::division_is_conservative(op, m, n, x, y);
    }
}

/// The range what an operator on bits makes is known to lie in holds it.
proof fn masking_is_so(lens: Lens, op: BinOp, m: Bounds, n: Bounds, x: Known, y: Known, k: Known)
    requires
        m.wf() && n.wf() && x.wf() && y.wf() && k.wf(),
        m.holds(x),
        n.holds(y),
        op is BitAnd || op is BitOr || op is BitXor,
        makes(lens, op, x, y, k),
    ensures
        ranges::spec_bitwise(op, m, n) matches Some(claim) ==> claim is Within
            && claim->Within_0.holds(k),
{
    reveal(makes);
    if ranges::spec_bitwise(op, m, n) is Some {
        ranges::bits_are_conservative(op, m, n, x, y);
    }
}

/// What an operator on bits makes of two settled values is what it is settled
/// to.
proof fn settling_is_so(lens: Lens, op: BinOp, x: Known, y: Known, k: Known)
    requires
        x.wf() && y.wf() && k.wf(),
        makes(lens, op, x, y, k),
    ensures
        ranges::spec_settled(op, x, y) matches Some(known) ==> known == k,
{
    reveal(makes);
    if ranges::spec_settled(op, x, y) is Some {
        value::ones_fit(x.width as nat);
        vstd::arithmetic::div_mod::lemma_small_mod(k.bits as nat, value::span(x.width as nat));
    }
}

/// The range a shift is known to leave holds what it makes.
proof fn moving_is_so(lens: Lens, op: BinOp, m: Bounds, x: Known, y: Known, k: Known)
    requires
        m.wf() && x.wf() && y.wf() && k.wf(),
        m.holds(x),
        makes(lens, op, x, y, k),
    ensures
        ranges::spec_moved(op, m, Some(y)) matches Some(claim) ==> claim is Within
            && claim->Within_0.holds(k),
{
    reveal(makes);
    if ranges::spec_moved(op, m, Some(y)) is Some {
        ranges::shifting_is_conservative(op, m, y, x);
        let n = y.bits as u32;
        y.stands();
        assert(y.val() == n);
        if op is Shr || op is ShrUnchecked {
            x.shrinks(n as nat);
            x.placed(x.val() / (value::span(n as nat) as int));
        } else {
            x.placed(x.val() * value::span(n as nat));
        }
        k.told_apart(x.spec_shifted(op, n)->Some_0);
    }
}

/// What is known of an operator's result, apart from its order, is so of what
/// it makes of the values a run reads.
#[verifier::rlimit(40)]
proof fn what_is_made_is_so(
    lens: Lens,
    state: Seq<Fact>,
    op: BinOp,
    left: Operand,
    right: Operand,
    x: Known,
    y: Known,
    run: Run,
    k: Known,
)
    requires
        holds(state, run),
        reads(lens, left, x, run),
        reads(lens, right, y, run),
        makes(lens, op, x, y, k),
        proper(k),
    ensures
        lens.binary(state, op, left, right) matches Some(claim) ==> claim.allows(k, run.measure())
            && !(claim is Length) && (op is Add && claim is Within ==> k.val() == x.val()
            + y.val()),
{
    let measure = run.measure();
    what_is_read_is_so(lens, state, left, x, run);
    what_is_read_is_so(lens, state, right, y, run);
    let l = lens.fact(state, left);
    let r = lens.fact(state, right);
    let a = lens.spread(state, left);
    let b = lens.spread(state, right);
    let spans = match (a, b) {
        (Some(m), Some(n)) => value::spec_spans_compare(op, m, n),
        _ => None,
    };
    if let Some(truth) = value::spec_compare(op, l, r) {
        value::comparing_is_conservative(op, l, r, x, y, measure);
        deciding_is_so(lens, op, x, y, k, truth);
    } else if let Some(truth) = spans {
        value::ranges_compare_truly(op, a->Some_0, b->Some_0, x, y);
        deciding_is_so(lens, op, x, y, k, truth);
    } else {
        if let (Some(Claim::Exact(m)), Some(Claim::Exact(n))) = (l.value, r.value) {
            settling_is_so(lens, op, x, y, k);
        }
        if let (Some(m), Some(n)) = (a, b) {
            spanning_is_so(lens, op, m, n, x, y, k);
            if op is Div || op is Rem {
                splitting_is_so(lens, op, m, n, x, y, k);
            }
            if op is BitAnd || op is BitOr || op is BitXor {
                masking_is_so(lens, op, m, n, x, y, k);
            }
        }
        if let Some(m) = a {
            if read::settled_claim(r) is Some {
                assert(read::settled_claim(r) == Some(y));
                moving_is_so(lens, op, m, x, y, k);
            }
        }
    }
}

/// The truth value a comparison is settled to is the one it makes.
proof fn deciding_is_so(lens: Lens, op: BinOp, x: Known, y: Known, k: Known, truth: bool)
    requires
        makes(lens, op, x, y, k),
        value::verdict(op, x.val(), y.val()) == Some(truth),
    ensures
        lens.program.spec_boolean(truth) matches Some(known) ==> known == k,
{
    reveal(makes);
}

/// What is known of a number read at another type is so.
proof fn what_is_cast_is_so(
    lens: Lens,
    state: Seq<Fact>,
    operand: Operand,
    ty: Option<mir::Type>,
    x: Known,
    run: Run,
    k: Known,
)
    requires
        holds(state, run),
        reads(lens, operand, x, run),
        proper(k),
        ty matches Some(t) ==> (t.spec_seed() matches Some(seed) ==> !(seed.ty.form is Bool)
            && k.same(seed) && k.bits == x.val() % (value::span(k.width as nat) as int)),
    ensures
        lens.cast(state, operand, ty) matches Some(claim) ==> claim.allows(k, run.measure()) && !(
        claim is Length),
{
    what_is_read_is_so(lens, state, operand, x, run);
    let source = operand.spec_ty(lens.program);
    let held = lens.fact(state, operand).value;
    let claim = match held {
        Some(Claim::Length(_)) => None,
        Some(claim) => if read::spec_written_at(source) is Some && claim.spec_ty()
            == read::spec_written_at(source) {
            Some(claim)
        } else {
            ranges::within(read::spec_whole(source))
        },
        None => ranges::within(read::spec_whole(source)),
    };
    x.stands();
    x.placed(x.min_val());
    x.placed(x.max_val());
    if let Some(whole) = read::spec_whole(source) {
        let seed = source->Some_0.spec_seed()->Some_0;
        assert(seed.at(seed.min_val()) == x.at(x.min_val()));
        assert(seed.at(seed.max_val()) == x.at(x.max_val()));
        assert(whole.wf() && whole.holds(x));
    }
    if let (Some(claim), Some(t)) = (claim, ty) {
        if let Some(seed) = t.spec_seed() {
            assert(k == ranges::spec_converted(x, seed));
            if ranges::spec_recast(claim, seed) is Some {
                ranges::casting_is_conservative(claim, seed, x, run.measure());
            }
        }
    }
}

/// Whether an order against a length is so of a number, and of its type.
pub open spec fn ordered_so(ranks: Ranks, k: Known, run: Run) -> bool {
    &&& ranks.holds(k.val(), run.measure())
    &&& of_one_type(ranks.spec_first(), k, run)
    &&& of_one_type(ranks.spec_second(), k, run)
}

proof fn adding_an_order(ranks: Ranks, rel: LenRel, of: Local, k: Known, run: Run)
    requires
        ordered_so(ranks, k, run),
        of_one_type(Some(Rank { rel, of }), k, run),
        value::ranked(Some(Rank { rel, of }), k.val(), run.measure()),
    ensures
        ordered_so(ranks.with(rel, of), k, run),
{
}

proof fn raising_an_order(ranks: Ranks, rank: Option<Rank>, x: Known, added: u128, k: Known, run: Run)
    requires
        ordered_so(ranks, k, run),
        of_one_type(rank, x, run),
        value::ranked(rank, x.val(), run.measure()),
        x.wf(),
        k.same(x),
        x.fits(x.val() + added) ==> k.val() == x.val() + added,
    ensures
        ordered_so(read::raised_rank(ranks, rank, added), k, run),
{
    if let Some(held) = rank {
        let m = (run.at)(held.of);
        m.stands();
        x.stands();
        if added == 0 {
            adding_an_order(ranks, held.rel, held.of, k, run);
        } else if added == 1 && held.rel is Below {
            adding_an_order(ranks, LenRel::AtMost, held.of, k, run);
        }
    }
}

proof fn lowering_an_order(ranks: Ranks, rank: Option<Rank>, x: Known, taken: u128, k: Known, run: Run)
    requires
        ordered_so(ranks, k, run),
        of_one_type(rank, x, run),
        value::ranked(rank, x.val(), run.measure()),
        k.same(x),
        k.val() == x.val() - taken,
    ensures
        ordered_so(read::lowered_rank(ranks, rank, taken), k, run),
{
    if let Some(held) = rank {
        adding_an_order(
            ranks,
            if taken == 0 {
                held.rel
            } else {
                LenRel::Below
            },
            held.of,
            k,
            run,
        );
    }
}

/// A difference is ordered against a length as it is known to be.
proof fn taking_off_is_ordered(
    lens: Lens,
    span: Option<Bounds>,
    l: Fact,
    r: Fact,
    x: Known,
    y: Known,
    run: Run,
    k: Known,
)
    requires
        x.wf() && y.wf() && k.wf(),
        proper(x),
        run.backs(l, x, 0) || (l.order is Empty && !(l.value matches Some(Claim::Length(_)))),
        r.value matches Some(claim) ==> claim.allows(y, run.measure()),
        span matches Some(span) ==> span.holds(x) && span.wf(),
        makes(lens, BinOp::Sub, x, y, k),
    ensures
        ordered_so(read::spec_shortened(span, l, r), k, run),
{
    reveal(makes);
    let held = match (l.order, l.value) {
        (Ranks::Empty, Some(Claim::Length(of))) => Ranks::One(Rank { rel: LenRel::AtMost, of }),
        _ => l.order,
    };
    x.stands();
    y.stands();
    if let (Some(taken), Some(span)) = (read::settled_claim(r), span) {
        if !(taken.signed() || span.lo.spec_order(taken) is None || span.lo.spec_order(taken)
            == Some(Side::Less)) {
            assert(taken == y);
            assert(k.val() == x.val() - taken.bits);
            let once = read::lowered_rank(Ranks::Empty, held.spec_first(), taken.bits);
            lowering_an_order(Ranks::Empty, held.spec_first(), x, taken.bits, k, run);
            lowering_an_order(once, held.spec_second(), x, taken.bits, k, run);
        }
    }
}

/// A sum is ordered against a length as it is known to be.
proof fn adding_is_ordered(lens: Lens, l: Fact, r: Fact, x: Known, y: Known, run: Run, k: Known)
    requires
        x.wf() && y.wf() && k.wf(),
        ordered_so(l.order, x, run),
        r.value matches Some(claim) ==> claim.allows(y, run.measure()),
        makes(lens, BinOp::Add, x, y, k),
    ensures
        ordered_so(read::spec_lengthened(l, r), k, run),
{
    reveal(makes);
    if let Some(added) = read::settled_claim(r) {
        if !added.signed() {
            assert(added == y);
            let once = read::raised_rank(Ranks::Empty, l.order.spec_first(), added.bits);
            raising_an_order(Ranks::Empty, l.order.spec_first(), x, added.bits, k, run);
            raising_an_order(once, l.order.spec_second(), x, added.bits, k, run);
        }
    }
}

/// A remainder is below the length it was taken by, and a quotient at most the
/// length it was taken of.
proof fn dividing_is_ordered(lens: Lens, op: BinOp, x: Known, y: Known, of: Local, run: Run, k: Known)
    requires
        x.wf() && y.wf() && k.wf() && proper(x) && proper(y),
        op is Div || op is Rem,
        !x.signed(),
        (run.at)(of) == if op is Div {
            x
        } else {
            y
        },
        makes(lens, op, x, y, k),
    ensures
        op is Rem ==> ordered_so(Ranks::One(Rank { rel: LenRel::Below, of }), k, run),
        op is Div ==> ordered_so(Ranks::One(Rank { rel: LenRel::AtMost, of }), k, run),
{
    reveal(makes);
    let (a, b) = (x.val(), y.val());
    if op is Rem {
        assert(a % b < b) by (nonlinear_arith)
            requires
                b > 0,
        ;
    } else {
        assert(a / b <= a) by (nonlinear_arith)
            requires
                b > 0,
                a >= 0,
        ;
    }
}

/// The operands of an operator on numbers are of one type, apart from the
/// amount of a shift.
proof fn one_type(lens: Lens, op: BinOp, x: Known, y: Known, k: Known)
    requires
        makes(lens, op, x, y, k),
        op is Div || op is Rem,
    ensures
        x.same(y),
{
    reveal(makes);
}

/// How a result is known to be ordered against a length is so.
#[verifier::rlimit(40)]
proof fn what_is_ordered_is_so(
    lens: Lens,
    state: Seq<Fact>,
    op: BinOp,
    left: Operand,
    right: Operand,
    x: Known,
    y: Known,
    run: Run,
    k: Known,
)
    requires
        holds(state, run),
        reads(lens, left, x, run),
        reads(lens, right, y, run),
        makes(lens, op, x, y, k),
        proper(k),
    ensures
        ordered_so(lens.ordered(state, op, left, right), k, run),
{
    what_is_read_is_so(lens, state, left, x, run);
    what_is_read_is_so(lens, state, right, y, run);
    let l = lens.fact(state, left);
    let r = lens.fact(state, right);
    assert(ordered_so(l.order, x, run)) by {
        if lens.slot_read(left) is None {
            assert(l.order is Empty);
        }
    }
    if op is Rem {
        one_type(lens, op, x, y, k);
        if lens.unsigned(left) {
            if let Some(Claim::Length(of)) = r.value {
                dividing_is_ordered(lens, op, x, y, of, run, k);
            }
        }
    } else if op is Div {
        one_type(lens, op, x, y, k);
        if lens.unsigned(right) {
            if let Some(Claim::Length(of)) = l.value {
                dividing_is_ordered(lens, op, x, y, of, run, k);
            }
        }
    } else if op is Sub {
        let bare = Fact { tag: None, same: None, ..l };
        assert(read::spec_shortened(lens.spread(state, left), bare, r) == read::spec_shortened(
            lens.spread(state, left),
            l,
            r,
        ));
        taking_off_is_ordered(lens, lens.spread(state, left), bare, r, x, y, run, k);
    } else if op is Add {
        adding_is_ordered(lens, l, r, x, y, run, k);
    }
}

/// The slot an operand's value came from holds it, and the one it was reached
/// from holds what it was reached from.
proof fn where_it_came_from(lens: Lens, state: Seq<Fact>, operand: Operand, k: Known, run: Run)
    requires
        holds(state, run),
        reads(lens, operand, k, run),
    ensures
        lens.source_of(state, operand) matches Some(of) ==> (run.at)(of) == k,
        lens.fact(state, operand).over matches Some(over) ==> k.val() == (run.at)(over.of).val()
            + over.step,
{
    what_is_read_is_so(lens, state, operand, k, run);
    if let Some(slot) = lens.slot_read(operand) {
        roots_are_alike(state, run, slot);
    }
}

/// A comparison with what a value was reached from comes out as it is known
/// to.
proof fn stepping_is_so(
    lens: Lens,
    state: Seq<Fact>,
    op: BinOp,
    left: Operand,
    right: Operand,
    x: Known,
    y: Known,
    run: Run,
)
    requires
        holds(state, run),
        reads(lens, left, x, run),
        reads(lens, right, y, run),
    ensures
        lens.stepped(state, op, left, right) matches Some(truth) ==> value::verdict(
            op,
            x.val(),
            y.val(),
        ) == Some(truth),
{
    where_it_came_from(lens, state, left, x, run);
    where_it_came_from(lens, state, right, y, run);
    value::readings_agree(op, x.val(), y.val());
}

/// What an addition is known to be reached from is what it was reached from.
proof fn raising_is_so(
    lens: Lens,
    state: Seq<Fact>,
    op: BinOp,
    left: Operand,
    right: Operand,
    claim: Option<Claim>,
    x: Known,
    y: Known,
    run: Run,
    k: Known,
)
    requires
        holds(state, run),
        reads(lens, left, x, run),
        reads(lens, right, y, run),
        claim matches Some(c) ==> (op is Add && c is Within ==> k.val() == x.val() + y.val()),
    ensures
        lens.raised(state, op, left, lens.fact(state, right), claim) matches Some(over)
            ==> k.val() == (run.at)(over.of).val() + over.step,
{
    what_is_read_is_so(lens, state, right, y, run);
    if let Some(slot) = lens.slot_read(left) {
        roots_are_alike(state, run, slot);
    }
}

/// What is known of an operator's result is so of what it makes of the values
/// a run reads.
#[verifier::rlimit(40)]
proof fn what_is_operated_is_so(
    lens: Lens,
    state: Seq<Fact>,
    op: BinOp,
    left: Operand,
    right: Operand,
    x: Known,
    y: Known,
    run: Run,
    k: Known,
    tag: u128,
)
    requires
        holds(state, run),
        reads(lens, left, x, run),
        reads(lens, right, y, run),
        makes(lens, op, x, y, k),
        proper(k),
    ensures
        run.backs(lens.operated(state, op, left, right), k, tag),
{
    stepping_is_so(lens, state, op, left, right, x, y, run);
    if let Some(truth) = lens.stepped(state, op, left, right) {
        deciding_is_so(lens, op, x, y, k, truth);
    } else {
        let claim = lens.binary(state, op, left, right);
        what_is_made_is_so(lens, state, op, left, right, x, y, run, k);
        what_is_ordered_is_so(lens, state, op, left, right, x, y, run, k);
        raising_is_so(lens, state, op, left, right, claim, x, y, run, k);
    }
}

/// What is known of a copy is so.
proof fn what_is_copied_is_so(lens: Lens, state: Seq<Fact>, operand: Operand, run: Run, k: Known, tag: u128)
    requires
        holds(state, run),
        reads(lens, operand, k, run),
        lens.slot_read(operand) matches Some(slot) ==> (run.tag)(slot) == tag,
    ensures
        run.backs(lens.traced(state, operand), k, tag),
{
    what_is_read_is_so(lens, state, operand, k, run);
    if let Some(slot) = lens.slot_read(operand) {
        roots_are_alike(state, run, slot);
    }
}

/// What is known of a value with every bit turned is so.
proof fn what_is_denied_is_so(lens: Lens, state: Seq<Fact>, operand: Operand, x: Known, run: Run, k: Known, tag: u128)
    requires
        holds(state, run),
        computes(lens, Rvalue::Not(operand), x, x, run, k, tag),
    ensures
        run.backs(Fact::just(lens.denied(state, operand)), k, tag),
{
    what_is_read_is_so(lens, state, operand, x, run);
    let fact = lens.fact(state, operand);
    if value::spec_pinned(fact) is Some {
        value::pinning_is_conservative(fact, x, run.measure());
    }
}

/// What is known of the address of what a slice pointer points at is so.
proof fn what_is_borrowed_is_so(lens: Lens, state: Seq<Fact>, place: Place, run: Run, k: Known, tag: u128)
    requires
        holds(state, run),
        proper(k),
        place.steps@ == seq![Step::Deref] ==> k == (run.at)(place.local),
    ensures
        run.backs(lens.reborrowed(state, place), k, tag),
{
    if place.steps@ == seq![Step::Deref] {
        what_is_known_is_so(state, run, place.local);
    }
}

/// What a discriminant is known to read as is what it reads as.
proof fn what_is_told_apart_is_so(lens: Lens, state: Seq<Fact>, place: Place, run: Run, x: Known, k: Known, tag: u128)
    requires
        holds(state, run),
        computes(lens, Rvalue::Discriminant(place), x, x, run, k, tag),
    ensures
        run.backs(Fact::just(lens.tag_read(state, place)), k, tag),
{
    if let Some(slot) = lens.slot_of(place) {
        if slot.0 < state.len() {
            assert(run.bears(state[slot.0 as int], Local(slot.0)));
            what_is_known_is_so(state, run, slot);
        }
    }
}

/// What is known of a fat pointer is so of the length it is built from.
proof fn what_is_fattened_is_so(lens: Lens, state: Seq<Fact>, meta: Operand, run: Run, k: Known, tag: u128)
    requires
        holds(state, run),
        reads(lens, meta, k, run),
    ensures
        run.backs(lens.fattened(state, meta), k, tag),
{
    what_is_read_is_so(lens, state, meta, k, run);
}

/// What is known of what an assignment computes is so of every run: nothing
/// that is claimed of it is false of the value that the run computes. One that
/// reads bits at another type is apart.
#[verifier::rlimit(40)]
pub proof fn what_is_computed_is_so(
    lens: Lens,
    state: Seq<Fact>,
    rvalue: Rvalue,
    x: Known,
    y: Known,
    run: Run,
    k: Known,
    tag: u128,
)
    requires
        holds(state, run),
        computes(lens, rvalue, x, y, run, k, tag),
        !(rvalue is Reinterpret),
    ensures
        run.backs(lens.rvalue(state, rvalue), k, tag),
{
    match rvalue {
        Rvalue::Use(operand) => {
            what_is_copied_is_so(lens, state, operand, run, k, tag);
        },
        Rvalue::IntCast(operand, ty) => {
            what_is_cast_is_so(lens, state, operand, ty, x, run, k);
        },
        Rvalue::Binary(op, left, right) => {
            what_is_operated_is_so(lens, state, op, left, right, x, y, run, k, tag);
        },
        Rvalue::Not(operand) => {
            what_is_denied_is_so(lens, state, operand, x, run, k, tag);
        },
        Rvalue::Metadata(operand) => {
            if let Some(slot) = lens.slot_read(operand) {
                roots_are_alike(state, run, slot);
            }
        },
        Rvalue::Address(place, _, _) => {
            what_is_borrowed_is_so(lens, state, place, run, k, tag);
        },
        Rvalue::Discriminant(place) => {
            what_is_told_apart_is_so(lens, state, place, run, x, k, tag);
        },
        Rvalue::Aggregate(Build::Fat, fields) => {
            if fields@.len() > 1 {
                what_is_fattened_is_so(lens, state, fields@[1], run, k, tag);
            }
        },
        _ => {},
    }
}

/// Whether what a state says of each slot is so, whatever values it names.
pub open spec fn backed(state: Seq<Fact>, run: Run) -> bool {
    forall|i: int|
        0 <= i < state.len() ==> run.backs(
            #[trigger] state[i],
            (run.at)(Local(i as usize)),
            (run.tag)(Local(i as usize)),
        )
}

/// Whether two runs hold the same in a slot.
pub open spec fn alike_at(one: Run, other: Run, slot: Local) -> bool {
    (one.at)(slot) == (other.at)(slot) && (one.tag)(slot) == (other.tag)(slot)
}

/// Forgetting a slot leaves nothing false of a run that has anything else
/// there.
proof fn forgetting_is_so(state: Seq<Fact>, slot: Local, run: Run, after: Run)
    requires
        fits(state),
        backed(state, run),
        forall|other: Local| other != slot ==> #[trigger] alike_at(run, after, other),
        proper((after.at)(slot)),
    ensures
        backed(state::forgotten(state, slot), after),
        fits(state::forgotten(state, slot)),
{
    let next = state::forgotten(state, slot);
    assert forall|i: int| 0 <= i < next.len() implies after.backs(
        #[trigger] next[i],
        (after.at)(Local(i as usize)),
        (after.tag)(Local(i as usize)),
    ) by {
        let here = Local(i as usize);
        let held = state[i];
        if here != slot {
            assert(alike_at(run, after, here));
            assert(next[i] == state::swept(held, slot));
            sweeping_a_fact_is_so(held, slot, run, after, (run.at)(here), (run.tag)(here));
        }
    }
}

proof fn sweeping_a_fact_is_so(
    held: Fact,
    slot: Local,
    run: Run,
    after: Run,
    k: Known,
    tag: u128,
)
    requires
        run.backs(held, k, tag),
        forall|other: Local| other != slot ==> #[trigger] alike_at(run, after, other),
    ensures
        after.backs(state::swept(held, slot), k, tag),
{
    let next = state::swept(held, slot);
    if let Some(rank) = held.order.spec_first() {
        assert(rank.of != slot ==> alike_at(run, after, rank.of));
    }
    if let Some(rank) = held.order.spec_second() {
        assert(rank.of != slot ==> alike_at(run, after, rank.of));
    }
    if let Some(Claim::Length(of)) = held.value {
        assert(of != slot ==> alike_at(run, after, of));
    }
    if let Some(of) = held.same {
        assert(of != slot ==> alike_at(run, after, of));
    }
    if let Some(of) = held.paired {
        assert(of != slot ==> alike_at(run, after, of));
    }
    if let Some(of) = held.spans {
        assert(of != slot ==> alike_at(run, after, of));
    }
    if let Some(over) = held.over {
        assert(over.of != slot ==> alike_at(run, after, over.of));
    }
}

/// A run that has some slots from one run and the others from another.
pub open spec fn between(run: Run, after: Run, done: spec_fn(Local) -> bool) -> Run {
    Run {
        at: |slot: Local|
            if done(slot) {
                (after.at)(slot)
            } else {
                (run.at)(slot)
            },
        tag: |slot: Local|
            if done(slot) {
                (after.tag)(slot)
            } else {
                (run.tag)(slot)
            },
    }
}

/// Whether a slot is one of the first `n` places, and one of some.
pub open spec fn among(places: Slots, gone: spec_fn(Path) -> bool, n: nat) -> spec_fn(
    Local,
) -> bool {
    |slot: Local|
        places.first <= slot.0 < places.first + n && gone(places.paths[slot.0 - places.first])
}

proof fn sweeping_is_so(
    state: Seq<Fact>,
    places: Slots,
    gone: spec_fn(Path) -> bool,
    run: Run,
    after: Run,
    n: nat,
)
    requires
        fits(state),
        backed(state, run),
        places.wf(),
        n <= places.paths.len(),
        forall|slot: Local| proper(#[trigger] (after.at)(slot)),
    ensures
        backed(
            places::swept_where(state, places, gone, n),
            between(run, after, among(places, gone, n)),
        ),
        fits(places::swept_where(state, places, gone, n)),
    decreases n,
{
    let now = between(run, after, among(places, gone, n));
    if n == 0 {
        assert(now.at =~= run.at);
        assert(now.tag =~= run.tag);
    } else {
        let m = (n - 1) as nat;
        sweeping_is_so(state, places, gone, run, after, m);
        let was = between(run, after, among(places, gone, m));
        let before = places::swept_where(state, places, gone, m);
        let slot = Local((places.first + n - 1) as usize);
        if gone(places.paths[n - 1]) {
            assert forall|other: Local| other != slot implies #[trigger] alike_at(
                was,
                now,
                other,
            ) by {
                assert(other.0 != slot.0);
            }
            assert((now.at)(slot) == (after.at)(slot));
            forgetting_is_so(before, slot, was, now);
        } else {
            assert(now.at =~= was.at);
            assert(now.tag =~= was.tag);
        }
    }
}

/// Whether a write to a place can give a slot another value. A local that a
/// pointer is aimed at, and nothing is kept of, is no slot a run has.
pub open spec fn reached(lens: Lens, place: Place, slot: Local) -> bool {
    match lens.places.path(slot) {
        None => !place.spec_through() && slot == place.local,
        Some(path) => {
            ||| !place.spec_through() && path.base == place.local
            ||| path.takes(Step::At(place.local))
            ||| place.spec_is_indirect() && places::spec_aliased(lens.escaped, path)
        },
    }
}

/// A write to a place leaves nothing false of a run that has anything else in
/// the slots that it reaches.
proof fn overwriting_is_so(lens: Lens, state: Seq<Fact>, place: Place, run: Run, after: Run)
    requires
        lens.wf(),
        fits(state),
        backed(state, run),
        place.local.0 < lens.places.first || lens.places.path(place.local) is None,
        forall|slot: Local| proper(#[trigger] (after.at)(slot)),
        forall|slot: Local|
            !reached(lens, place, slot) ==> #[trigger] alike_at(run, after, slot),
    ensures
        backed(lens.overwritten(state, place), after),
        fits(lens.overwritten(state, place)),
{
    let places = lens.places;
    let n = places.paths.len();
    let local = place.local;
    let only = |slot: Local| slot == local;
    let based = places::based_on(local);
    let decided = places::decided_by(local);
    let exposed = places::exposed(lens.escaped);
    let (written, r1) = if place.spec_through() {
        (state, run)
    } else {
        let r0 = between(run, after, only);
        assert forall|other: Local| other != local implies #[trigger] alike_at(run, r0, other) by {}
        forgetting_is_so(state, local, run, r0);
        sweeping_is_so(state::forgotten(state, local), places, based, r0, after, n);
        (
            places::base_swept(state::forgotten(state, local), places, local),
            between(r0, after, among(places, based, n)),
        )
    };
    assert(backed(written, r1) && fits(written));
    sweeping_is_so(written, places, decided, r1, after, n);
    let r2 = between(r1, after, among(places, decided, n));
    let moved = places::index_swept(written, places, local);
    let r3 = if place.spec_is_indirect() {
        sweeping_is_so(moved, places, exposed, r2, after, n);
        between(r2, after, among(places, exposed, n))
    } else {
        r2
    };
    assert forall|slot: Local| #[trigger] (r3.at)(slot) == (after.at)(slot) by {
        if !reached(lens, place, slot) {
            assert(alike_at(run, after, slot));
        }
    }
    assert forall|slot: Local| #[trigger] (r3.tag)(slot) == (after.tag)(slot) by {
        if !reached(lens, place, slot) {
            assert(alike_at(run, after, slot));
        }
    }
    assert(r3.at =~= after.at);
    assert(r3.tag =~= after.tag);
}

/// Whether a statement can give a slot another value. The end of a local's
/// life gives it none.
pub open spec fn alters(lens: Lens, stmt: Statement, slot: Local) -> bool {
    match stmt {
        Statement::Assign(place, _) => reached(lens, place, slot),
        Statement::SetDiscriminant(place, _) => reached(lens, place, slot),
        Statement::StorageLive(local) => match lens.places.path(slot) {
            None => slot == local,
            Some(path) => path.base == local || path.takes(Step::At(local)),
        },
        Statement::Copy(_) => match lens.places.path(slot) {
            None => false,
            Some(path) => places::spec_aliased(lens.escaped, path),
        },
        _ => false,
    }
}

/// Whether a run that has been through a statement is one it can leave: what
/// it does not alter is kept, and what is written holds what was computed.
pub open spec fn steps(
    lens: Lens,
    stmt: Statement,
    x: Known,
    y: Known,
    k: Known,
    tag: u128,
    run: Run,
    after: Run,
) -> bool {
    &&& forall|slot: Local| proper(#[trigger] (after.at)(slot))
    &&& forall|slot: Local|
        !alters(lens, stmt, slot) ==> #[trigger] alike_at(run, after, slot)
    &&& match stmt {
        Statement::Assign(place, rvalue) => computes(lens, rvalue, x, y, run, k, tag) && (
        lens.slot_of(place) matches Some(slot) ==> (after.at)(slot) == k && (after.tag)(slot)
            == tag),
        Statement::SetDiscriminant(place, variant) => (lens.slot_of(place) matches Some(slot) ==> (
        lens.program.spec_enum_of(place.ty) matches Some(e) ==> variant < e.tags@.len() ==> (
        after.tag)(slot) == e.tags@[variant as int])),
        Statement::Assume(operand) => reads(lens, operand, k, run) && k.bits != 0,
        _ => true,
    }
}

/// The local a statement names is a local.
pub open spec fn names_a_local(lens: Lens, stmt: Statement) -> bool {
    match stmt {
        Statement::Assign(place, _) => place.local.0 < lens.places.first,
        Statement::SetDiscriminant(place, _) => place.local.0 < lens.places.first,
        Statement::StorageLive(local) => local.0 < lens.places.first,
        Statement::StorageDead(local) => local.0 < lens.places.first,
        _ => true,
    }
}

/// Whether what an assignment computes is known by nothing that the write
/// gives another value, and fills no place on its own.
pub open spec fn stands_apart(lens: Lens, state: Seq<Fact>, stmt: Statement) -> bool {
    match stmt {
        Statement::Assign(place, rvalue) => {
            let fact = lens.rvalue(state, rvalue);
            let kept = if fact.same == lens.slot_of(place) {
                Fact { same: None, ..fact }
            } else {
                fact
            };
            &&& !(rvalue is Reinterpret)
            &&& !(rvalue is Aggregate)
            &&& forall|slot: Local| #[trigger]
                reached(lens, place, slot) ==> !state::leans(kept, slot)
        },
        _ => true,
    }
}

proof fn putting_is_backed(state: Seq<Fact>, run: Run, slot: Local, fact: Fact)
    requires
        fits(state),
        backed(state, run),
        slot.0 < state.len() ==> run.backs(fact, (run.at)(slot), (run.tag)(slot)),
    ensures
        backed(state::put(state, slot, fact), run),
        fits(state::put(state, slot, fact)),
{
    let after = state::put(state, slot, fact);
    assert forall|i: int| 0 <= i < after.len() implies run.backs(
        #[trigger] after[i],
        (run.at)(Local(i as usize)),
        (run.tag)(Local(i as usize)),
    ) by {
        if slot.0 < state.len() && i == slot.0 {
        } else {
            assert(after[i] == state[i]);
        }
    }
}

/// What is so of a number stays so where nothing it leans on is altered.
proof fn standing_apart_is_so(fact: Fact, gone: spec_fn(Local) -> bool, run: Run, after: Run, k: Known, tag: u128)
    requires
        run.backs(fact, k, tag),
        forall|slot: Local| #[trigger] gone(slot) ==> !state::leans(fact, slot),
        forall|slot: Local| !gone(slot) ==> #[trigger] alike_at(run, after, slot),
    ensures
        after.backs(fact, k, tag),
{
    if let Some(rank) = fact.order.spec_first() {
        assert(gone(rank.of) ==> !state::leans(fact, rank.of));
        assert(alike_at(run, after, rank.of));
    }
    if let Some(rank) = fact.order.spec_second() {
        assert(gone(rank.of) ==> !state::leans(fact, rank.of));
        assert(alike_at(run, after, rank.of));
    }
    if let Some(Claim::Length(of)) = fact.value {
        assert(gone(of) ==> !state::leans(fact, of));
        assert(alike_at(run, after, of));
    }
    if let Some(of) = fact.same {
        assert(gone(of) ==> !state::leans(fact, of));
        assert(alike_at(run, after, of));
    }
    if let Some(of) = fact.paired {
        assert(gone(of) ==> !state::leans(fact, of));
        assert(alike_at(run, after, of));
    }
    if let Some(of) = fact.spans {
        assert(gone(of) ==> !state::leans(fact, of));
        assert(alike_at(run, after, of));
    }
    if let Some(over) = fact.over {
        assert(gone(over.of) ==> !state::leans(fact, over.of));
        assert(alike_at(run, after, over.of));
    }
}

proof fn assigning_is_so(
    lens: Lens,
    state: Seq<Fact>,
    place: Place,
    rvalue: Rvalue,
    x: Known,
    y: Known,
    k: Known,
    tag: u128,
    run: Run,
    after: Run,
)
    requires
        lens.wf(),
        fits(state),
        holds(state, run),
        steps(lens, Statement::Assign(place, rvalue), x, y, k, tag, run, after),
        stands_apart(lens, state, Statement::Assign(place, rvalue)),
        place.local.0 < lens.places.first,
    ensures
        backed(lens.assigned(state, place, rvalue), after),
{
    let stmt = Statement::Assign(place, rvalue);
    let fact = lens.rvalue(state, rvalue);
    let target = lens.slot_of(place);
    let swept = lens.overwritten(state, place);
    let kept = if fact.same == target {
        Fact { same: None, ..fact }
    } else {
        fact
    };
    what_is_computed_is_so(lens, state, rvalue, x, y, run, k, tag);
    assert(run.backs(kept, k, tag));
    let gone = |slot: Local| reached(lens, place, slot);
    assert forall|slot: Local| #[trigger] gone(slot) implies !state::leans(kept, slot) by {
        assert(reached(lens, place, slot));
    }
    assert forall|slot: Local| !gone(slot) implies #[trigger] alike_at(run, after, slot) by {
        assert(!alters(lens, stmt, slot));
    }
    standing_apart_is_so(kept, gone, run, after, k, tag);
    assert forall|slot: Local| !reached(lens, place, slot) implies #[trigger] alike_at(
        run,
        after,
        slot,
    ) by {
        assert(!gone(slot));
    }
    assert(backed(state, run));
    overwriting_is_so(lens, state, place, run, after);
    if let Some(slot) = target {
        putting_is_backed(swept, after, slot, kept);
    }
}

/// A statement leaves nothing false of a run that it can leave: a state that
/// holds of a run before a statement, once the statement is applied to it,
/// holds of the run after it.
///
/// Left apart are an assignment whose result is known by what the assignment
/// overwrites, one that reads bits at another type, and a constructor.
pub proof fn a_statement_keeps_what_holds(
    lens: Lens,
    state: Seq<Fact>,
    stmt: Statement,
    x: Known,
    y: Known,
    k: Known,
    tag: u128,
    run: Run,
    after: Run,
)
    requires
        lens.wf(),
        fits(state),
        holds(state, run),
        names_a_local(lens, stmt),
        steps(lens, stmt, x, y, k, tag, run, after),
        stands_apart(lens, state, stmt),
        lens.statement(state, stmt) matches Some(next) ==> state::sound(next),
    ensures
        lens.statement(state, stmt) matches Some(next) && holds(next, after),
{
    let places = lens.places;
    let n = places.paths.len();
    assert(backed(state, run));
    match stmt {
        Statement::Assign(place, rvalue) => {
            assigning_is_so(lens, state, place, rvalue, x, y, k, tag, run, after);
        },
        Statement::SetDiscriminant(place, variant) => {
            assert forall|slot: Local| !reached(lens, place, slot) implies #[trigger] alike_at(
                run,
                after,
                slot,
            ) by {
                assert(!alters(lens, stmt, slot));
            }
            overwriting_is_so(lens, state, place, run, after);
            let swept = lens.overwritten(state, place);
            if let Some(slot) = lens.slot_of(place) {
                putting_is_backed(
                    swept,
                    after,
                    slot,
                    Fact {
                        tag: lens.tag_of(place.ty, variant as usize),
                        ..state::spec_held(swept, slot)
                    },
                );
            }
        },
        Statement::StorageLive(local) => {
            let r0 = between(run, after, |slot: Local| slot == local);
            assert forall|other: Local| other != local implies #[trigger] alike_at(
                run,
                r0,
                other,
            ) by {}
            forgetting_is_so(state, local, run, r0);
            let gone = state::forgotten(state, local);
            unnaming_is_so(lens, gone, local, r0, after);
            let r2 = unnamed_run(lens, local, r0, after);
            assert forall|slot: Local| #[trigger] (r2.at)(slot) == (after.at)(slot) by {
                if !alters(lens, stmt, slot) {
                    assert(alike_at(run, after, slot));
                }
            }
            assert forall|slot: Local| #[trigger] (r2.tag)(slot) == (after.tag)(slot) by {
                if !alters(lens, stmt, slot) {
                    assert(alike_at(run, after, slot));
                }
            }
            assert(r2.at =~= after.at);
            assert(r2.tag =~= after.tag);
        },
        Statement::StorageDead(local) => {
            assert forall|other: Local| other != local implies #[trigger] alike_at(
                run,
                after,
                other,
            ) by {
                assert(!alters(lens, stmt, other));
            }
            assert(alike_at(run, after, local)) by {
                assert(!alters(lens, stmt, local));
            }
            forgetting_is_so(state, local, run, after);
            let gone = state::forgotten(state, local);
            if local.0 < state.len() {
                assert(run.bears(state[local.0 as int], Local(local.0)));
                let held = state[local.0 as int];
                let none = |slot: Local| false;
                assert forall|slot: Local| !none(slot) implies #[trigger] alike_at(
                    run,
                    after,
                    slot,
                ) by {
                    assert(!alters(lens, stmt, slot));
                }
                standing_apart_is_so(
                    held,
                    none,
                    run,
                    after,
                    (run.at)(local),
                    (run.tag)(local),
                );
                outliving_is_so(held, after, (run.at)(local), (run.tag)(local));
            }
            putting_is_backed(gone, after, local, state::outliving(state::spec_held(state, local)));
            unnaming_is_so(lens, state::retired(state, local), local, after, after);
            let r2 = unnamed_run(lens, local, after, after);
            assert(r2.at =~= after.at);
            assert(r2.tag =~= after.tag);
        },
        Statement::Assume(operand) => {
            let fact = lens.fact(state, operand);
            what_is_read_is_so(lens, state, operand, k, run);
            if value::spec_pinned(fact) is Some {
                value::pinning_is_conservative(fact, k, run.measure());
            }
            unaltered(lens, stmt, run, after);
        },
        Statement::Copy(_) => {
            let exposed = places::exposed(lens.escaped);
            sweeping_is_so(state, places, exposed, run, after, n);
            let r1 = between(run, after, among(places, exposed, n));
            assert forall|slot: Local| #[trigger] (r1.at)(slot) == (after.at)(slot) by {
                if !alters(lens, stmt, slot) {
                    assert(alike_at(run, after, slot));
                }
            }
            assert forall|slot: Local| #[trigger] (r1.tag)(slot) == (after.tag)(slot) by {
                if !alters(lens, stmt, slot) {
                    assert(alike_at(run, after, slot));
                }
            }
            assert(r1.at =~= after.at);
            assert(r1.tag =~= after.tag);
        },
        _ => {
            unaltered(lens, stmt, run, after);
        },
    }
}

proof fn unaltered(lens: Lens, stmt: Statement, run: Run, after: Run)
    requires
        forall|slot: Local| !alters(lens, stmt, slot),
        forall|slot: Local|
            !alters(lens, stmt, slot) ==> #[trigger] alike_at(run, after, slot),
    ensures
        run == after,
{
    assert forall|slot: Local| #[trigger] (run.at)(slot) == (after.at)(slot) by {
        assert(alike_at(run, after, slot));
    }
    assert forall|slot: Local| #[trigger] (run.tag)(slot) == (after.tag)(slot) by {
        assert(alike_at(run, after, slot));
    }
    assert(run.at =~= after.at);
    assert(run.tag =~= after.tag);
}

proof fn outliving_is_so(held: Fact, run: Run, k: Known, tag: u128)
    requires
        run.backs(held, k, tag),
    ensures
        run.backs(state::outliving(held), k, tag),
{
}

/// A run once the places that named a local are another run's.
spec fn unnamed_run(lens: Lens, local: Local, run: Run, after: Run) -> Run {
    let places = lens.places;
    let n = places.paths.len();
    between(
        between(run, after, among(places, places::based_on(local), n)),
        after,
        among(places, places::decided_by(local), n),
    )
}

proof fn unnaming_is_so(lens: Lens, state: Seq<Fact>, local: Local, run: Run, after: Run)
    requires
        lens.wf(),
        fits(state),
        backed(state, run),
        forall|slot: Local| proper(#[trigger] (after.at)(slot)),
    ensures
        backed(lens.unnamed(state, local), unnamed_run(lens, local, run, after)),
{
    let places = lens.places;
    let n = places.paths.len();
    let based = places::based_on(local);
    sweeping_is_so(state, places, based, run, after, n);
    let r1 = between(run, after, among(places, based, n));
    sweeping_is_so(
        places::base_swept(state, places, local),
        places,
        places::decided_by(local),
        r1,
        after,
        n,
    );
}

/// What a comparison with a constant leaves behind admits the numbers of which
/// it holds and no others, and leaves nothing behind only where it holds of
/// none.
pub proof fn a_constant_teaches_exactly(op: BinOp, k: Known, x: Known, truth: bool, run: Run)
    requires
        proper(k),
        proper(x),
        x.same(k),
        value::verdict(op, x.val(), k.val()) is Some,
    ensures
        match value::spec_fact_of(op, Against::Constant(k), truth) {
            Some(Taught::Value(claim)) => claim.allows(x, run.measure()) <==> value::verdict(
                op,
                x.val(),
                k.val(),
            ) == Some(truth),
            Some(_) => false,
            None => value::verdict(op, x.val(), k.val()) != Some(truth),
        },
{
    let read = if truth {
        op
    } else {
        value::spec_negated(op)
    };
    value::readings_agree(op, x.val(), k.val());
    x.stands();
    k.stands();
    k.placed(k.min_val());
    k.placed(k.max_val());
    if k.fits(k.val() - 1) {
        k.placed(k.val() - 1);
    }
    if k.fits(k.val() + 1) {
        k.placed(k.val() + 1);
    }
    if x.val() == k.val() {
        x.told_apart(k);
    }
}

/// A comparison with a length, where it puts a number below the length, at
/// most at it, at it or off it, leaves just that behind.
pub proof fn a_length_teaches_exactly(op: BinOp, slot: Local, of: Local, truth: bool, run: Run)
    requires
        proper((run.at)(slot)),
        proper((run.at)(of)),
        (run.at)(slot).same((run.at)(of)),
        value::verdict(op, 0, 0) is Some,
    ensures
        match value::spec_fact_of(op, Against::Length(of), truth) {
            Some(taught) => run.owns(taught, slot) <==> value::verdict(
                op,
                (run.at)(slot).val(),
                (run.at)(of).val(),
            ) == Some(truth),
            None => ({
                let read = if truth {
                    op
                } else {
                    value::spec_negated(op)
                };
                read is Gt || read is Ge
            }),
        },
{
    let x = (run.at)(slot);
    let y = (run.at)(of);
    if x.val() == y.val() {
        x.told_apart(y);
    }
}

/// Whether a reading measures a local against a constant as an operator does.
pub open spec fn reads_so(reading: Compared, local: Local, op: BinOp, k: Known) -> bool {
    &&& reading.local == local
    &&& reading.against == Against::Constant(k)
    &&& reading.arm is None
    &&& forall|a: int, b: int| #[trigger]
        value::verdict(reading.op, a, b) == value::verdict(op, a, b)
}

/// Whether some reading measures a local against a constant as an operator
/// does.
pub open spec fn one_reads_so(readings: Seq<Compared>, local: Local, op: BinOp, k: Known) -> bool {
    exists|i: int| 0 <= i < readings.len() && reads_so(#[trigger] readings[i], local, op, k)
}

proof fn offering_keeps(found: Seq<Compared>, candidate: Option<Compared>, one: Compared)
    requires
        found.contains(one) || candidate == Some(one),
    ensures
        branch::offered(found, candidate).contains(one),
{
    let now = branch::offered(found, candidate);
    if found.contains(one) {
        let i = choose|i: int| 0 <= i < found.len() && found[i] == one;
        assert(now[i] == one);
    } else {
        assert(now[found.len() as int] == one);
    }
}

proof fn what_is_named_is_kept(
    lens: Lens,
    state: Seq<Fact>,
    op: BinOp,
    left: Operand,
    right: Operand,
    one: Compared,
)
    requires
        ({
            let back = value::spec_mirrored(op);
            ||| branch::reading(lens.slot_read(left), lens.named(state, right), op, None) == Some(
                one,
            )
            ||| branch::reading(lens.slot_read(right), lens.named(state, left), back, None) == Some(
                one,
            )
        }),
    ensures
        lens.compared(state, op, left, right).contains(one),
{
    let near = lens.slot_read(left);
    let far = lens.slot_read(right);
    let back = value::spec_mirrored(op);
    let s0 = Seq::<Compared>::empty();
    let c1 = branch::reading(near, lens.named(state, right), op, None);
    let s1 = branch::offered(s0, c1);
    let c2 = branch::reading(far, lens.named(state, left), back, None);
    if c1 == Some(one) {
        offering_keeps(s0, c1, one);
    }
    offering_keeps(s1, c2, one);
    let s2 = branch::offered(s1, c2);
    let c3 = branch::reading(near, lens.chained_to(state, right, op), op, None);
    offering_keeps(s2, c3, one);
    let s3 = branch::offered(s2, c3);
    let c4 = branch::reading(far, lens.chained_to(state, left, back), back, None);
    offering_keeps(s3, c4, one);
    let s4 = branch::offered(s3, c4);
    let c5 = branch::reading(near, lens.ended(state, right, op), op, Some(true));
    offering_keeps(s4, c5, one);
    let s5 = branch::offered(s4, c5);
    let c6 = branch::reading(far, lens.ended(state, left, back), back, Some(true));
    offering_keeps(s5, c6, one);
    let s6 = branch::offered(s5, c6);
    let c7 = branch::reading(
        near,
        lens.ended(state, right, value::spec_negated(op)),
        op,
        Some(false),
    );
    offering_keeps(s6, c7, one);
    let s7 = branch::offered(s6, c7);
    let c8 = branch::reading(
        far,
        lens.ended(state, left, value::spec_negated(back)),
        back,
        Some(false),
    );
    offering_keeps(s7, c8, one);
    let s8 = branch::offered(s7, c8);
    let c9 = branch::reading(near, lens.sited(state, right), op, None);
    offering_keeps(s8, c9, one);
    let s9 = branch::offered(s8, c9);
    let c10 = branch::reading(far, lens.sited(state, left), back, None);
    offering_keeps(s9, c10, one);
}

proof fn what_stands_is_kept(
    lens: Lens,
    found: Seq<Compared>,
    result: Local,
    after: Seq<Statement>,
    state: Seq<Fact>,
    at: int,
    n: nat,
)
    requires
        0 <= at < n <= found.len(),
        lens.standing(result, after, state, found[at]) is Some,
    ensures
        branch::left_standing(lens, found, result, after, state, n).contains(
            lens.standing(result, after, state, found[at])->Some_0,
        ),
    decreases n,
{
    let before = branch::left_standing(lens, found, result, after, state, (n - 1) as nat);
    let kept = lens.standing(result, after, state, found[at])->Some_0;
    if at < n - 1 {
        what_stands_is_kept(lens, found, result, after, state, at, (n - 1) as nat);
        if let Some(last) = lens.standing(result, after, state, found[n - 1]) {
            let i = choose|i: int| 0 <= i < before.len() && before[i] == kept;
            assert(before.push(last)[i] == kept);
        }
    } else {
        assert(before.push(kept)[before.len() as int] == kept);
    }
}

/// A comparison of a slot with a constant, on either side of it, is read as
/// the comparison it is written as, where nothing after it can change the
/// slot, the one its value came from or the boolean.
pub proof fn a_comparison_with_a_constant_is_read(
    lens: Lens,
    stmts: Seq<Statement>,
    result: Local,
    state: Seq<Fact>,
    at: int,
    slot: Local,
    k: Known,
)
    requires
        compared_at(stmts, result, at),
        ({
            let root = state::spec_root_of(state, slot);
            &&& !places::aimed_at(lens.escaped, root)
            &&& forall|i: int|
                at < i < stmts.len() ==> !lens.touches(#[trigger] stmts[i], slot) && !lens.touches(
                    stmts[i],
                    root,
                ) && !lens.touches(stmts[i], result)
        }),
    ensures
        match stmts[at] {
            Statement::Assign(_, Rvalue::Binary(op, left, right)) => {
                &&& lens.slot_read(left) == Some(slot) && right.spec_constant() == Some(k)
                    ==> one_reads_so(
                    lens.comparison_behind(stmts, result, state),
                    state::spec_root_of(state, slot),
                    op,
                    k,
                )
                &&& lens.slot_read(right) == Some(slot) && left.spec_constant() == Some(k)
                    ==> one_reads_so(
                    lens.comparison_behind(stmts, result, state),
                    state::spec_root_of(state, slot),
                    turned(op),
                    k,
                )
            },
            _ => true,
        },
{
    last_of_all(stmts, result, at, stmts.len());
    let after = stmts.skip(at + 1);
    let root = state::spec_root_of(state, slot);
    if let Statement::Assign(_, Rvalue::Binary(op, left, right)) = stmts[at] {
        let found = lens.compared(state, op, left, right);
        let kept = lens.comparison_behind(stmts, result, state);
        let back = value::spec_mirrored(op);
        let c = Compared { op, local: slot, against: Against::Constant(k), source: None, arm: None };
        let d = Compared { op: back, ..c };
        if lens.slot_read(left) == Some(slot) && right.spec_constant() == Some(k) {
            what_is_named_is_kept(lens, state, op, left, right, c);
            let i = choose|i: int| 0 <= i < found.len() && found[i] == c;
            untouched_stands(lens, result, after, state, c, stmts, at);
            what_stands_is_kept(lens, found, result, after, state, i, found.len());
            let j = choose|j: int| 0 <= j < kept.len() && kept[j] == Compared { local: root, ..c };
            assert(reads_so(kept[j], root, op, k));
        }
        if lens.slot_read(right) == Some(slot) && left.spec_constant() == Some(k) {
            what_is_named_is_kept(lens, state, op, left, right, d);
            let i = choose|i: int| 0 <= i < found.len() && found[i] == d;
            untouched_stands(lens, result, after, state, d, stmts, at);
            what_stands_is_kept(lens, found, result, after, state, i, found.len());
            let j = choose|j: int| 0 <= j < kept.len() && kept[j] == Compared { local: root, ..d };
            assert(reads_so(kept[j], root, turned(op), k));
        }
    }
}

/// The comparison that holds between two numbers when an operator does between
/// the same two the other way round.
pub open spec fn turned(op: BinOp) -> BinOp {
    if op is Lt {
        BinOp::Gt
    } else if op is Gt {
        BinOp::Lt
    } else if op is Le {
        BinOp::Ge
    } else if op is Ge {
        BinOp::Le
    } else {
        op
    }
}

proof fn untouched_stands(
    lens: Lens,
    result: Local,
    after: Seq<Statement>,
    state: Seq<Fact>,
    c: Compared,
    stmts: Seq<Statement>,
    at: int,
)
    requires
        0 <= at < stmts.len(),
        after == stmts.skip(at + 1),
        c.source is None,
        c.against is Constant,
        ({
            let root = state::spec_root_of(state, c.local);
            &&& !places::aimed_at(lens.escaped, root)
            &&& forall|i: int|
                at < i < stmts.len() ==> !lens.touches(#[trigger] stmts[i], c.local)
                    && !lens.touches(stmts[i], root) && !lens.touches(stmts[i], result)
        }),
    ensures
        lens.standing(result, after, state, c) == Some(
            Compared { local: state::spec_root_of(state, c.local), ..c },
        ),
{
    let root = state::spec_root_of(state, c.local);
    assert forall|i: int| 0 <= i < after.len() implies !(#[trigger] lens.undoes(
        result,
        root,
        c,
        after[i],
    )) by {
        assert(after[i] == stmts[i + at + 1]);
    }
}

/// A branch on a condition that is settled sends a state only where the
/// settled value goes.
pub proof fn a_settled_branch_goes_one_way(
    lens: Lens,
    stmts: Seq<Statement>,
    discr: Operand,
    arms: Seq<Arm>,
    otherwise: usize,
    state: Seq<Fact>,
    k: Known,
    i: int,
)
    requires
        value::spec_pinned(lens.fact(state, discr)) == Some(k),
        0 <= i < lens.branch_sent(stmts, discr, arms, otherwise, state).len(),
    ensures
        goes(arms, otherwise, k, lens.branch_sent(stmts, discr, arms, otherwise, state)[i].to),
{
    let named = lens.arms_sent(stmts, discr, arms, state, arms.len());
    let taken = branch::named_values(arms);
    if i < named.len() {
        arms_go(lens, stmts, discr, arms, state, k, i, arms.len());
    } else {
        assert forall|j: int| 0 <= j < arms.len() implies (#[trigger] arms[j]).value != k.bits by {
            assert(taken[j] == arms[j].value);
        }
    }
}

proof fn arms_go(
    lens: Lens,
    stmts: Seq<Statement>,
    discr: Operand,
    arms: Seq<Arm>,
    state: Seq<Fact>,
    k: Known,
    i: int,
    n: nat,
)
    requires
        value::spec_pinned(lens.fact(state, discr)) == Some(k),
        n <= arms.len(),
        0 <= i < lens.arms_sent(stmts, discr, arms, state, n).len(),
    ensures
        exists|j: int|
            0 <= j < arms.len() && (#[trigger] arms[j]).value == k.bits && arms[j].target
                == lens.arms_sent(stmts, discr, arms, state, n)[i].to,
    decreases n,
{
    if n > 0 {
        let before = lens.arms_sent(stmts, discr, arms, state, (n - 1) as nat);
        if i < before.len() {
            arms_go(lens, stmts, discr, arms, state, k, i, (n - 1) as nat);
        } else {
            assert(arms[n - 1].value == k.bits);
        }
    }
}

/// A check whose condition is settled sends nothing to its cleanup path where
/// it holds, and nothing past it where it does not.
pub proof fn a_settled_check_goes_one_way(
    lens: Lens,
    stmts: Seq<Statement>,
    check: Assert,
    state: Seq<Fact>,
    k: Known,
)
    requires
        value::spec_pinned(lens.fact(state, check.cond)) == Some(k),
    ensures
        ({
            let sent = lens.check_sent(stmts, check, state);
            &&& (k.bits != 0) == check.expected ==> sent.len() == 1 && sent[0].to == check.target
            &&& (k.bits != 0) != check.expected ==> forall|i: int|
                0 <= i < sent.len() ==> check.unwind == Unwind::Cleanup((#[trigger] sent[i]).to)
        }),
{
}

/// Reading bits at another type says nothing of them but that they are not
/// zero, and says that only of an address and of a number that its type keeps
/// off zero.
pub proof fn reading_bits_rules_out_zero(
    lens: Lens,
    state: Seq<Fact>,
    operand: Operand,
    ty: mir::Type,
    k: Known,
    run: Run,
)
    requires
        proper(k),
        ty.spec_seed() matches Some(seed) && k.same(seed),
    ensures
        match lens.rvalue(state, Rvalue::Reinterpret(operand, Some(ty))).value {
            Some(claim) => (lens.fact(state, operand).address || read::spec_is_nonzero(
                operand.spec_ty(lens.program),
            )) && (claim.allows(k, run.measure()) <==> k.bits != 0),
            None => !lens.fact(state, operand).address && !read::spec_is_nonzero(
                operand.spec_ty(lens.program),
            ),
        },
{
}

/// Whether a call whose result holds for every implementation of what it
/// calls returns `k`, where its arguments read `x` and `y`.
pub open spec fn answers(lens: Lens, call: Call, x: Known, y: Known, run: Run, k: Known) -> bool {
    let args = call.args@;
    &&& proper(k)
    &&& call.destination.ty matches Some(ty) ==> (ty.spec_seed() matches Some(seed) ==> k.same(
        seed,
    ))
    &&& match call.contract {
        None => true,
        Some(Contract::SliceLen) => args.len() > 0 ==> (lens.slot_read(args[0]) matches Some(slot)
            ==> k == (run.at)(slot)),
        Some(Contract::Larger) => args.len() == 2 ==> reads(lens, args[0], x, run) && reads(
            lens,
            args[1],
            y,
            run,
        ) && x.same(y) && k == if x.val() >= y.val() {
            x
        } else {
            y
        },
        Some(Contract::Smaller) => args.len() == 2 ==> reads(lens, args[0], x, run) && reads(
            lens,
            args[1],
            y,
            run,
        ) && x.same(y) && k == if x.val() <= y.val() {
            x
        } else {
            y
        },
        Some(Contract::Counted) => args.len() > 0 ==> reads(lens, args[0], x, run) && 0 <= k.val()
            <= x.width,
        Some(Contract::Nonzero) => args.len() > 0 && (args[0].spec_ty(lens.program) matches Some(ty)
            && ty.kind is NonZero) ==> k.bits != 0,
    }
}

/// What a call is known to return, whatever implements it, is so of what it
/// returns.
pub proof fn what_is_answered_is_so(
    lens: Lens,
    state: Seq<Fact>,
    call: Call,
    x: Known,
    y: Known,
    run: Run,
    k: Known,
)
    requires
        holds(state, run),
        answers(lens, call, x, y, run, k),
    ensures
        lens.contracted(state, call) matches Some(claim) ==> claim.allows(k, run.measure()) && (
        claim matches Claim::Length(of) ==> (run.at)(of) == k),
{
    let args = call.args@;
    match call.contract {
        Some(Contract::SliceLen) => {
            if args.len() > 0 {
                if let Some(slot) = lens.slot_read(args[0]) {
                    roots_are_alike(state, run, slot);
                }
            }
        },
        Some(Contract::Larger) | Some(Contract::Smaller) => {
            if args.len() == 2 {
                what_is_read_is_so(lens, state, args[0], x, run);
                what_is_read_is_so(lens, state, args[1], y, run);
                let larger = call.contract == Some(Contract::Larger);
                if let (Some(m), Some(n)) = (
                    lens.spread(state, args[0]),
                    lens.spread(state, args[1]),
                ) {
                    if x.val() == y.val() {
                        x.told_apart(y);
                    }
                    picking_is_so(larger, m, n, x, y);
                }
            }
        },
        Some(Contract::Counted) => {
            if args.len() > 0 {
                if let (Some(source), Some(there)) = (
                    args[0].spec_ty(lens.program),
                    call.destination.ty,
                ) {
                    if let (Some(of), Some(seed)) = (source.spec_seed(), there.spec_seed()) {
                        if of.width <= value::ones(seed.width as nat) {
                            counting_is_so(of, seed, x, k);
                        }
                    }
                }
            }
        },
        _ => {},
    }
}

proof fn counting_is_so(of: Known, seed: Known, x: Known, k: Known)
    requires
        k.wf(),
        k.same(seed),
        seed.bits == 0,
        x.width == of.width,
        0 <= k.val() <= x.width,
        of.width <= value::ones(seed.width as nat),
    ensures
        Bounds::spec_new(seed, Known { bits: of.width as u128, ..seed }) matches Some(b)
            ==> b.holds(k),
{
    k.stands();
}

proof fn picking_is_so(larger: bool, m: Bounds, n: Bounds, x: Known, y: Known)
    requires
        m.wf() && n.wf() && x.wf() && y.wf(),
        m.holds(x),
        n.holds(y),
        x.same(y),
    ensures
        summary::spec_picked(larger, m, n) matches Some(Claim::Within(b)) ==> b.holds(
            if (x.val() >= y.val()) == larger {
                x
            } else {
                y
            },
        ),
{
}

/// What a claim says outside the body it was made in is so in any other run of
/// any other body, of a number that it was so of.
pub proof fn what_goes_abroad_is_so(held: Fact, k: Known, tag: u128, run: Run, there: Run)
    requires
        run.backs(held, k, tag),
    ensures
        there.backs(summary::spec_abroad(held), k, tag),
{
}

/// Whether an argument says of the value it hands over only what is so.
pub open spec fn hands_over(one: Carried, k: Known, tag: u128, run: Run) -> bool {
    let fact = one.fact;
    &&& run.backs(fact, k, tag)
    &&& !(fact.value matches Some(Claim::Length(_)))
    &&& fact.same is None
    &&& fact.paired is None
    &&& fact.spans is None
    &&& fact.over is None
    &&& one.slot matches Some(slot) ==> (run.at)(slot) == k
}

/// What an argument is known about, as it is handed over, is so of the value
/// it hands over.
pub proof fn what_is_handed_over_is_so(
    lens: Lens,
    state: Seq<Fact>,
    callee: Lens,
    index: int,
    arg: Operand,
    k: Known,
    tag: u128,
    run: Run,
)
    requires
        holds(state, run),
        reads(lens, arg, k, run),
        lens.slot_read(arg) matches Some(slot) ==> (run.tag)(slot) == tag,
    ensures
        hands_over(lens.about(state, callee, index, arg), k, tag, run),
{
    what_is_read_is_so(lens, state, arg, k, run);
    if let Some(slot) = lens.slot_read(arg) {
        roots_are_alike(state, run, slot);
    }
}

proof fn carried_by(all: Seq<Carried>, of: Local, n: nat)
    requires
        n <= all.len(),
        summary::carrier(all, of, n) is Some,
    ensures
        ({
            let at = summary::carrier(all, of, n)->Some_0;
            at < n && all[at as int].alike && all[at as int].slot == Some(of)
        }),
    decreases n,
{
    if n > 0 && summary::carrier(all, of, (n - 1) as nat) is Some {
        carried_by(all, of, (n - 1) as nat);
    }
}

proof fn rewriting_is_so(all: Seq<Carried>, rank: Option<Rank>, k: Known, run: Run, inside: Run)
    requires
        all.len() < usize::MAX,
        of_one_type(rank, k, run),
        value::ranked(rank, k.val(), run.measure()),
        forall|i: int|
            0 <= i < all.len() && (#[trigger] all[i]).alike ==> (all[i].slot matches Some(slot)
                ==> (inside.at)(Local((i + 1) as usize)) == (run.at)(slot)),
    ensures
        of_one_type(summary::rewritten(all, rank), k, inside),
        value::ranked(summary::rewritten(all, rank), k.val(), inside.measure()),
{
    if let Some(held) = rank {
        if summary::carrier(all, held.of, all.len()) is Some {
            carried_by(all, held.of, all.len());
            let at = summary::carrier(all, held.of, all.len())->Some_0;
            assert(all[at as int].alike);
        }
    }
}

/// A callee is entered with nothing false of the values it is handed.
pub proof fn entering_is_so(
    callee: Lens,
    all: Seq<Carried>,
    values: Seq<Known>,
    tags: Seq<u128>,
    run: Run,
    inside: Run,
    n: nat,
)
    requires
        n <= all.len() < usize::MAX,
        values.len() == all.len(),
        tags.len() == all.len(),
        callee.slots() <= usize::MAX,
        forall|slot: Local| proper(#[trigger] (inside.at)(slot)),
        forall|i: int|
            0 <= i < all.len() && (#[trigger] all[i]).alike ==> hands_over(
                all[i],
                values[i],
                tags[i],
                run,
            ) && (inside.at)(Local((i + 1) as usize)) == values[i] && (inside.tag)(
                Local((i + 1) as usize),
            ) == tags[i],
    ensures
        backed(summary::entered(callee, all, n), inside),
        fits(summary::entered(callee, all, n)),
    decreases n,
{
    if n > 0 {
        entering_is_so(callee, all, values, tags, run, inside, (n - 1) as nat);
        let before = summary::entered(callee, all, (n - 1) as nat);
        let held = all[n - 1];
        if held.alike {
            let k = values[n - 1];
            let order = held.fact.order;
            rewriting_is_so(all, order.spec_first(), k, run, inside);
            rewriting_is_so(all, order.spec_second(), k, run, inside);
            let a = summary::rewritten(all, order.spec_first());
            let b = summary::rewritten(all, order.spec_second());
            if let (Some(a), Some(b)) = (a, b) {
                adding_an_order(Ranks::Empty, a.rel, a.of, k, inside);
                adding_an_order(Ranks::Empty.with(a.rel, a.of), b.rel, b.of, k, inside);
            }
            assert(ordered_so(summary::reranked(all, order), k, inside));
            let fact = Fact { order: summary::reranked(all, order), ..held.fact };
            assert(inside.backs(fact, k, tags[n - 1]));
            putting_is_backed(before, inside, Local(n as usize), fact);
        }
    }
}

/// Whether the fields of what is constructed hold what their operands read,
/// which the write leaves as it was.
pub open spec fn fills(
    lens: Lens,
    place: Place,
    variant: Option<u32>,
    fields: Seq<Operand>,
    values: Seq<Known>,
    after: Run,
) -> bool {
    &&& values.len() == fields.len()
    &&& fields.len() <= u32::MAX
    &&& forall|j: int|
        0 <= j < fields.len() && effects::read_from(#[trigger] fields[j]) != Some(place.local)
            ==> reads(lens, fields[j], values[j], after) && (lens.field_slot(
            place,
            variant,
            j as u32,
        ) matches Some(slot) ==> (after.at)(slot) == values[j] && (lens.slot_read(
            fields[j],
        ) matches Some(from) ==> (after.tag)(slot) == (after.tag)(from)))
}

proof fn filling_is_so(
    lens: Lens,
    state: Seq<Fact>,
    place: Place,
    variant: Option<u32>,
    fields: Seq<Operand>,
    values: Seq<Known>,
    after: Run,
    n: nat,
)
    requires
        fits(state),
        holds(state, after),
        n <= fields.len(),
        fills(lens, place, variant, fields, values, after),
    ensures
        holds(lens.filled(state, place, variant, fields, n), after),
        fits(lens.filled(state, place, variant, fields, n)),
    decreases n,
{
    if n > 0 {
        filling_is_so(lens, state, place, variant, fields, values, after, (n - 1) as nat);
        let before = lens.filled(state, place, variant, fields, (n - 1) as nat);
        let field = fields[n - 1];
        if effects::read_from(field) != Some(place.local) {
            what_is_read_is_so(lens, before, field, values[n - 1], after);
            if let Some(slot) = lens.field_slot(place, variant, (n - 1) as u32) {
                let fact = lens.fact(before, field);
                assert(after.backs(fact, values[n - 1], (after.tag)(slot))) by {
                    if lens.slot_read(field) is None {
                        assert(fact.tag is None);
                    }
                }
                put_is_borne(before, after, slot, fact);
            }
        }
    }
}

/// A constructor leaves nothing false of a run that it can leave: its tag and
/// its fields, and the length a slice is made of, are so of what it builds.
pub proof fn a_constructor_keeps_what_holds(
    lens: Lens,
    state: Seq<Fact>,
    place: Place,
    build: Build,
    fields: Vec<Operand>,
    values: Seq<Known>,
    x: Known,
    y: Known,
    k: Known,
    tag: u128,
    run: Run,
    after: Run,
)
    requires
        lens.wf(),
        fits(state),
        holds(state, run),
        place.local.0 < lens.places.first,
        steps(
            lens,
            Statement::Assign(place, Rvalue::Aggregate(build, fields)),
            x,
            y,
            k,
            tag,
            run,
            after,
        ),
        ({
            let fact = lens.rvalue(state, Rvalue::Aggregate(build, fields));
            forall|slot: Local| #[trigger]
                reached(lens, place, slot) ==> !state::leans(fact, slot)
        }),
        places::spec_variant_built(build) matches Some(variant) ==> fills(
            lens,
            place,
            variant,
            fields@,
            values,
            after,
        ),
        build is Fat && fields@.len() > 1 ==> (lens.slot_read(fields@[1]) matches Some(slot)
            ==> !reached(lens, place, slot)),
        state::sound(
            match lens.slot_of(place) {
                Some(slot) => state::put(
                    lens.overwritten(state, place),
                    slot,
                    lens.rvalue(state, Rvalue::Aggregate(build, fields)),
                ),
                None => lens.overwritten(state, place),
            },
        ),
    ensures
        holds(lens.assigned(state, place, Rvalue::Aggregate(build, fields)), after),
{
    let rvalue = Rvalue::Aggregate(build, fields);
    let stmt = Statement::Assign(place, rvalue);
    let fact = lens.rvalue(state, rvalue);
    assert(fact.same is None);
    let target = lens.slot_of(place);
    let swept = lens.overwritten(state, place);
    what_is_computed_is_so(lens, state, rvalue, x, y, run, k, tag);
    let gone = |slot: Local| reached(lens, place, slot);
    assert forall|slot: Local| #[trigger] gone(slot) implies !state::leans(fact, slot) by {
        assert(reached(lens, place, slot));
    }
    assert forall|slot: Local| !gone(slot) implies #[trigger] alike_at(run, after, slot) by {
        assert(!alters(lens, stmt, slot));
    }
    standing_apart_is_so(fact, gone, run, after, k, tag);
    assert forall|slot: Local| !reached(lens, place, slot) implies #[trigger] alike_at(
        run,
        after,
        slot,
    ) by {
        assert(!gone(slot));
    }
    assert(backed(state, run));
    overwriting_is_so(lens, state, place, run, after);
    let held = match target {
        Some(slot) => state::put(swept, slot, fact),
        None => swept,
    };
    if let Some(slot) = target {
        putting_is_backed(swept, after, slot, fact);
        assert(Fact { same: None, ..fact } == fact);
    }
    assert(holds(held, after));
    if let Some(variant) = places::spec_variant_built(build) {
        filling_is_so(lens, held, place, variant, fields@, values, after, fields@.len());
    }
    let built = lens.constructed(held, place, rvalue);
    assert(holds(built, after));
    if let Some((local, slot)) = lens.measured_by(built, place, rvalue) {
        assert(lens.slot_read(fields@[1]) == Some(local));
        assert(alike_at(run, after, local));
        assert(after.bears(built[local.0 as int], Local(local.0)));
        put_is_borne(
            built,
            after,
            local,
            Fact {
                same: built[local.0 as int].same,
                ..read::spec_measuring(Claim::Length(slot))
            },
        );
    }
}

/// The variant that a number read at an enum's own type is known to hold is
/// the one that carries a payload, and it is known only where the number is
/// not the one that stands for the other variant.
pub proof fn what_is_niched_is_so(
    lens: Lens,
    state: Seq<Fact>,
    operand: Operand,
    ty: Option<mir::Type>,
    k: Known,
    run: Run,
)
    requires
        holds(state, run),
        reads(lens, operand, k, run),
        !lens.fact(state, operand).address,
        lens.niched(state, operand, ty) is Some,
    ensures
        lens.program.spec_enum_of(ty) matches Some(e) && (e.niche matches Some(niche)
            && niche.single && (mir::spec_value_at(
            operand.spec_ty(lens.program),
            niche.start,
        ) matches Some(start) && k != start) && niche.untagged < e.tags@.len() && lens.niched(
            state,
            operand,
            ty,
        ) == Some(e.tags@[niche.untagged as int])),
{
    let e = lens.program.spec_enum_of(ty)->Some_0;
    let niche = e.niche->Some_0;
    what_is_read_is_so(lens, state, operand, k, run);
    let start = mir::spec_value_at(operand.spec_ty(lens.program), niche.start)->Some_0;
    let w = value::span(start.width as nat) as int;
    value::ones_fit(start.width as nat);
    assert(0 <= niche.start as int % w < w) by (nonlinear_arith)
        requires
            w > 0,
    ;
    value::comparing_is_conservative(
        BinOp::Ne,
        lens.fact(state, operand),
        Fact::just(Some(Claim::Exact(start))),
        k,
        start,
        run.measure(),
    );
}

proof fn joining_an_order(a: Ranks, b: Ranks, k: Known, run: Run)
    requires
        ordered_so(a, k, run) || ordered_so(b, k, run),
    ensures
        ordered_so(a.spec_joined(b), k, run),
{
}

proof fn joining_is_so(a: Fact, b: Fact, slot: Local, run: Run)
    requires
        a.wf(),
        b.wf(),
        run.bears(a, slot) || run.bears(b, slot),
    ensures
        run.bears(a.spec_joined(b), slot),
{
    let k = (run.at)(slot);
    value::meeting_is_conservative(a, b, k, run.measure());
    joining_an_order(a.order, b.order, k, run);
    if let (Some(x), Some(y)) = (a.value, b.value) {
        value::joining_is_conservative(x, y, k, run.measure());
    }
}

proof fn widening_is_so(now: Fact, was: Fact, marks: Seq<u128>, slot: Local, run: Run)
    requires
        was.wf(),
        run.bears(now, slot),
    ensures
        run.bears(now.spec_widened(was, marks), slot),
{
    let k = (run.at)(slot);
    value::widening_facts_is_conservative(now, was, marks, k, run.measure());
    if let (Some(a), Some(b)) = (now.value, was.value) {
        value::widening_is_conservative(a, b, marks, k, run.measure());
        value::widening_stays_wf(a, b, marks);
    }
    if let (Some(a), Some(b)) = (now.extent, was.extent) {
        value::widening_is_conservative(Claim::Within(a), Claim::Within(b), marks, k, run.measure());
        value::widening_stays_wf(Claim::Within(a), Claim::Within(b), marks);
    }
}

/// Where two ways into a block meet, what is left holds of every run that
/// comes by either.
pub proof fn a_meeting_keeps_what_holds(
    held: Seq<Fact>,
    arriving: Seq<Fact>,
    widen: bool,
    marks: Seq<u128>,
    run: Run,
)
    requires
        held.len() == arriving.len(),
        state::sound(held),
        state::sound(arriving),
        holds(held, run) || holds(arriving, run),
    ensures
        holds(state::meeting(held, arriving, widen, marks), run),
{
    let after = state::meeting(held, arriving, widen, marks);
    assert forall|i: int| 0 <= i < after.len() implies run.bears(
        #[trigger] after[i],
        Local(i as usize),
    ) by {
        let slot = Local(i as usize);
        assert(held[i].wf() && arriving[i].wf());
        joining_is_so(held[i], arriving[i], slot, run);
        widening_is_so(held[i].spec_joined(arriving[i]), held[i], marks, slot, run);
    }
}

/// A state that is sent to a block and holds of a run leaves the block entered
/// with one that does, and so does every state that was sent there before.
pub proof fn an_arrival_keeps_what_holds(
    agenda: state::Agenda,
    bb: usize,
    incoming: Seq<Fact>,
    marks: Seq<u128>,
    run: Run,
)
    requires
        agenda.wf(),
        bb < agenda.entry.len(),
        state::sound(incoming),
        agenda.entry[bb as int] matches Some(held) ==> held.len() == incoming.len(),
        holds(incoming, run) || (agenda.entry[bb as int] matches Some(held) && holds(held, run)),
    ensures
        agenda.merged(bb, incoming, marks).entry[bb as int] matches Some(now) && holds(now, run),
{
    if let Some(held) = agenda.entry[bb as int] {
        assert(state::sound(held));
        if state::stirs(held, incoming) {
            a_meeting_keeps_what_holds(
                held,
                incoming,
                agenda.changes[bb as int] >= state::PRECISE,
                marks,
                run,
            );
        } else {
            assert forall|i: int| 0 <= i < held.len() implies run.bears(
                #[trigger] held[i],
                Local(i as usize),
            ) by {
                assert(!state::stirs_at(held, incoming, i));
                assert(held[i].wf() && incoming[i].wf());
                joining_is_so(held[i], incoming[i], Local(i as usize), run);
            }
        }
    }
}

/// Nothing is kept of a local that a pointer taken anywhere in the body can
/// write through: one to it or inside it, unless nothing is written through it
/// and it holds no cell.
pub proof fn what_is_written_through_is_not_kept(
    program: Program,
    function: Function,
    b: int,
    s: int,
    place: Place,
)
    requires
        0 <= b < function.blocks@.len(),
        0 <= s < function.blocks@[b].statements@.len(),
        function.locals@.len() <= usize::MAX,
        place.steps@.len() == 0,
        match function.blocks@[b].statements@[s] {
            Statement::Assign(_, Rvalue::Address(of, shared, frozen)) => of.local == place.local && (
            of.steps@.len() == 0 || of.steps@[0] != Step::Deref) && (!shared || !frozen),
            _ => false,
        },
        place.local.0 < function.locals@.len(),
    ensures
        Lens::of(program, function).slot_of(place) is None,
{
    assert(places::aims_at(function, b, s, place.local));
    assert(places::spec_escaping(function)[place.local.0 as int]);
    assert(Local(place.local.0) == place.local);
}

/// A local that no pointer can write through is kept: each one taken is to what
/// it points at, or is one that nothing is written through.
pub proof fn what_is_only_named_is_kept(program: Program, function: Function, place: Place)
    requires
        function.locals@.len() <= usize::MAX,
        place.steps@.len() == 0,
        place.local.0 < function.locals@.len(),
        forall|b: int, s: int|
            0 <= b < function.blocks@.len() && 0 <= s < function.blocks@[b].statements@.len() ==> (
            match #[trigger] function.blocks@[b].statements@[s] {
                Statement::Assign(_, Rvalue::Address(of, shared, frozen)) => of.local
                    != place.local || (of.steps@.len() > 0 && of.steps@[0] == Step::Deref) || (shared
                    && frozen),
                _ => true,
            }),
    ensures
        Lens::of(program, function).slot_of(place) == Some(place.local),
{
    let escaped = places::spec_escaping(function);
    assert(Local(place.local.0) == place.local);
    assert(!places::escapes_in(function, place.local)) by {
        if places::escapes_in(function, place.local) {
            let (b, s) = choose|b: int, s: int| #[trigger]
                places::aims_at(function, b, s, place.local);
            assert(places::aims(function.blocks@[b].statements@[s], place.local));
        }
    }
    assert(!escaped[place.local.0 as int]);
}

/// Whether code that was not read can give a slot another value: it is
/// reached through a pointer, or one could be aimed at it.
pub open spec fn is_exposed(lens: Lens, slot: Local) -> bool {
    lens.places.path(slot) matches Some(path) && (path.takes(Step::Deref) || places::aimed_at(
        lens.escaped,
        path.base,
    ))
}

/// Whether every slot of a run holds a number of its type.
pub open spec fn all_proper(run: Run) -> bool {
    forall|slot: Local| proper(#[trigger] (run.at)(slot))
}

/// Forgetting what a pointer could reach leaves nothing false of a run in
/// which code that was not read wrote there.
proof fn forgetting_what_is_exposed_is_so(lens: Lens, state: Seq<Fact>, run: Run, after: Run)
    requires
        lens.wf(),
        fits(state),
        backed(state, run),
        forall|slot: Local| proper(#[trigger] (after.at)(slot)),
        forall|slot: Local| !is_exposed(lens, slot) ==> #[trigger] alike_at(run, after, slot),
    ensures
        backed(places::alias_swept(state, lens.places, lens.escaped), after),
        fits(places::alias_swept(state, lens.places, lens.escaped)),
{
    let places = lens.places;
    let n = places.paths.len();
    let exposed = places::exposed(lens.escaped);
    sweeping_is_so(state, places, exposed, run, after, n);
    let r1 = between(run, after, among(places, exposed, n));
    assert forall|slot: Local| #[trigger] (r1.at)(slot) == (after.at)(slot) by {
        if !is_exposed(lens, slot) {
            assert(alike_at(run, after, slot));
        }
    }
    assert forall|slot: Local| #[trigger] (r1.tag)(slot) == (after.tag)(slot) by {
        if !is_exposed(lens, slot) {
            assert(alike_at(run, after, slot));
        }
    }
    assert(r1.at =~= after.at);
    assert(r1.tag =~= after.tag);
}

/// Dropping a place, or calling what puts a value there, leaves nothing false
/// of a run in which the place and what is exposed were written.
proof fn dropping_is_so(lens: Lens, state: Seq<Fact>, place: Place, run: Run, after: Run)
    requires
        lens.wf(),
        fits(state),
        backed(state, run),
        place.local.0 < lens.places.first,
        all_proper(run),
        all_proper(after),
        forall|slot: Local|
            !reached(lens, place, slot) && !is_exposed(lens, slot) ==> #[trigger] alike_at(
                run,
                after,
                slot,
            ),
    ensures
        backed(lens.dropped(state, place), after),
        fits(lens.dropped(state, place)),
{
    let mid = between(run, after, |slot: Local| reached(lens, place, slot));
    assert forall|slot: Local| proper(#[trigger] (mid.at)(slot)) by {
        assert(proper((run.at)(slot)) && proper((after.at)(slot)));
    }
    overwriting_is_so(lens, state, place, run, mid);
    assert forall|slot: Local| !is_exposed(lens, slot) implies #[trigger] alike_at(
        mid,
        after,
        slot,
    ) by {
        if !reached(lens, place, slot) {
            assert(alike_at(run, after, slot));
        }
    }
    forgetting_what_is_exposed_is_so(lens, lens.overwritten(state, place), mid, after);
}

/// Every block that dropping a place sends on to, the cleanup path too, is sent
/// what holds of a run in which the glue wrote to the place and to whatever a
/// pointer could reach.
pub proof fn a_drop_sends_what_holds(
    lens: Lens,
    place: Place,
    target: usize,
    drop: Option<usize>,
    unwind: Unwind,
    state: Seq<Fact>,
    run: Run,
    after: Run,
)
    requires
        lens.wf(),
        fits(state),
        holds(state, run),
        place.local.0 < lens.places.first,
        state::sound(lens.dropped(state, place)),
        all_proper(run),
        all_proper(after),
        forall|slot: Local|
            !reached(lens, place, slot) && !is_exposed(lens, slot) ==> #[trigger] alike_at(
                run,
                after,
                slot,
            ),
    ensures
        reaches_truly(lens.drop_sent(place, target, drop, unwind, state), target, after),
        drop matches Some(other) ==> reaches_truly(
            lens.drop_sent(place, target, drop, unwind, state),
            other,
            after,
        ),
        unwind matches Unwind::Cleanup(other) ==> reaches_truly(
            lens.drop_sent(place, target, drop, unwind, state),
            other,
            after,
        ),
{
    assert(backed(state, run));
    dropping_is_so(lens, state, place, run, after);
    let sent = lens.drop_sent(place, target, drop, unwind, state);
    let held = lens.dropped(state, place);
    assert(holds(held, after));
    assert(sent[0].to == target && sent[0].state == held);
    if let Some(other) = drop {
        assert(sent[1].to == other && sent[1].state == held);
    }
    if let Unwind::Cleanup(other) = unwind {
        let at = sent.len() - 1;
        assert(sent[at].to == other && sent[at].state == held);
    }
}

/// A call that comes back sends what holds of a run in which it wrote what it
/// returned and whatever a pointer could reach, where what it was found to
/// leave is so of that; one that unwinds wrote no result, and its cleanup path
/// is sent what holds of a run in which only what a pointer could reach was
/// written.
pub proof fn a_call_sends_what_holds(
    lens: Lens,
    call: Call,
    state: Seq<Fact>,
    found: fold::Answer,
    run: Run,
    back: Run,
    unwound: Run,
)
    requires
        lens.wf(),
        fits(state),
        holds(state, run),
        call.destination.local.0 < lens.places.first,
        all_proper(run),
        all_proper(back),
        all_proper(unwound),
        forall|slot: Local|
            !reached(lens, call.destination, slot) && !is_exposed(lens, slot)
                ==> #[trigger] alike_at(run, back, slot),
        forall|slot: Local| !is_exposed(lens, slot) ==> #[trigger] alike_at(run, unwound, slot),
        found.after == lens.dropped(state, call.destination),
        state::sound(found.after),
        state::sound(places::alias_swept(state, lens.places, lens.escaped)),
        found.left.wf(),
        lens.slot_of(call.destination) matches Some(slot) ==> back.backs(
            found.left,
            (back.at)(slot),
            (back.tag)(slot),
        ),
    ensures
        call.target matches Some(target) ==> reaches_truly(
            lens.call_sent(call, state, found),
            target,
            back,
        ),
        !found.quiet && call.unwind is Cleanup ==> reaches_truly(
            lens.call_sent(call, state, found),
            call.unwind->Cleanup_0,
            unwound,
        ),
{
    assert(backed(state, run));
    let sent = lens.call_sent(call, state, found);
    dropping_is_so(lens, state, call.destination, run, back);
    if let Some(slot) = lens.slot_of(call.destination) {
        putting_is_backed(found.after, back, slot, found.left);
    }
    assert(holds(lens.answered(call, found), back));
    if call.target is Some {
        assert(sent[0].to == call.target->Some_0);
    }
    forgetting_what_is_exposed_is_so(lens, state, run, unwound);
    if !found.quiet && call.unwind is Cleanup {
        let at = sent.len() - 1;
        assert(sent[at].to == call.unwind->Cleanup_0);
    }
}

/// What goes through code that no statement is read of, a yield or assembly,
/// is sent nothing that could be false.
pub proof fn a_blank_state_holds(n: nat, run: Run)
    requires
        forall|slot: Local| proper(#[trigger] (run.at)(slot)),
    ensures
        holds(state::spec_blank(n), run),
{
}

} // verus!
