//! What the walk knows at one point in a body, and how it changes.
//!
//! A claim is about one local at one place, so it lives only as long as the
//! value it was drawn from: a write to a local sweeps it, and a block two
//! predecessors reach keeps only what both leave behind. The worklist here
//! is what turns those two rules into a walk that ends, by widening a claim
//! that is still moving after the arms of a branch have met.

use std::collections::VecDeque;

use vstd::prelude::*;

use crate::mir::Unwind;
use crate::value;
use crate::value::{
    fact_of, Against, BinOp, Bounds, Claim, Fact, Known, LenRel, Local, Rank, Ranks, Taught,
    Thresholds,
};

verus! {

/// How many times a block's entry is joined exactly before what arrives is
/// widened.
///
/// Two is what a branch and its else arm need: the block they meet at is
/// recorded from the first arm and joined with the second. A third arrival
/// is a loop coming round, where a range that moves has to be pushed to the
/// end of its type rather than creeping there an iteration at a time.
pub const PRECISE: u32 = 2;

/// How many changes of one local's claim the walk's bound makes room for.
///
/// Two exact joins, a widening step for each end of a range, and the range
/// itself given up, for each of the two ranges a fact can hold. An end that
/// stops on its way at several values the body compares against takes a step
/// for each, so a walk may run out of room and be cut short. How many steps a
/// fact takes at most is [`crate::height::tallest`].
pub const STEPS: usize = 12;

/// What every local is known about at one point.
pub type State = Vec<Fact>;

/// Whether the values a state names are values of their types.
pub open spec fn sound(state: Seq<Fact>) -> bool {
    forall|i: int| 0 <= i < state.len() ==> (#[trigger] state[i]).wf()
}

/// A copy of a state.
pub fn copied(state: &State) -> (r: State)
    ensures
        r@ == state@,
{
    let r = state.clone();
    assert(r@ =~= state@);
    r
}

/// A state with nothing known.
pub open spec fn spec_blank(n: nat) -> Seq<Fact> {
    Seq::new(n, |i: int| Fact::nothing())
}

/// A state with nothing known.
pub fn blank(n: usize) -> (r: State)
    ensures
        r@ == spec_blank(n as nat),
        sound(r@),
{
    let mut out: State = Vec::new();
    let mut i: usize = 0;
    while i < n
        invariant
            i <= n,
            out@ == spec_blank(i as nat),
        decreases n - i,
    {
        out.push(Fact::blank());
        i += 1;
        assert(out@ =~= spec_blank(i as nat));
    }
    assert forall|i: int| 0 <= i < out@.len() implies (#[trigger] out@[i]).wf() by {
        assert(out@[i] == Fact::nothing());
    }
    out
}

/// What is held at a local, or nothing where there is no such local.
pub open spec fn spec_held(state: Seq<Fact>, local: Local) -> Fact {
    if local.0 < state.len() {
        state[local.0 as int]
    } else {
        Fact::nothing()
    }
}

/// What is held at a local, or nothing where there is no such local.
pub fn held(state: &State, local: Local) -> (r: Fact)
    ensures
        r == spec_held(state@, local),
        sound(state@) ==> r.wf(),
{
    if local.0 < state.len() {
        state[local.0]
    } else {
        Fact::blank()
    }
}

/// A state with one local's fact replaced, if there is such a local.
pub open spec fn put(state: Seq<Fact>, local: Local, fact: Fact) -> Seq<Fact> {
    if local.0 < state.len() {
        state.update(local.0 as int, fact)
    } else {
        state
    }
}

/// Replaces one local's fact, if there is such a local.
pub fn record(state: &mut State, local: Local, fact: Fact)
    ensures
        final(state)@ == put(old(state)@, local, fact),
        sound(old(state)@) && fact.wf() ==> sound(final(state)@),
{
    if local.0 < state.len() {
        state.set(local.0, fact);
    }
}

/// The local a local's link of sameness points at, or the local itself.
pub open spec fn spec_root_of(state: Seq<Fact>, local: Local) -> Local {
    match spec_held(state, local).same {
        Some(root) => root,
        None => local,
    }
}

/// The local a local's link of sameness points at, or the local itself.
pub fn root_of(state: &State, local: Local) -> (r: Local)
    ensures
        r == spec_root_of(state@, local),
{
    match held(state, local).same {
        Some(root) => root,
        None => local,
    }
}

/// A link, unless it names a local.
pub open spec fn unless(link: Option<Local>, local: Local) -> Option<Local> {
    if link == Some(local) {
        None
    } else {
        link
    }
}

fn cut(link: Option<Local>, local: Local) -> (r: Option<Local>)
    ensures
        r == unless(link, local),
{
    if link == Some(local) {
        None
    } else {
        link
    }
}

/// A fact without the claims that lean on a local.
///
/// The copied value itself stands; only the claim of still being the same as
/// the source dies with the write.
pub open spec fn swept(fact: Fact, local: Local) -> Fact {
    Fact {
        value: match fact.value {
            Some(claim) => if claim.leaning(local) {
                None
            } else {
                Some(claim)
            },
            None => None,
        },
        order: fact.order.without(local),
        same: unless(fact.same, local),
        paired: unless(fact.paired, local),
        spans: unless(fact.spans, local),
        over: match fact.over {
            Some(over) => if over.of == local {
                None
            } else {
                Some(over)
            },
            None => None,
        },
        ..fact
    }
}

/// Whether a fact says something that leans on a local.
pub open spec fn leans(fact: Fact, local: Local) -> bool {
    ||| fact.value == Some(Claim::Length(local))
    ||| fact.order.spec_against(local) is Some
    ||| fact.same == Some(local)
    ||| fact.paired == Some(local)
    ||| fact.spans == Some(local)
    ||| fact.over is Some && fact.over->Some_0.of == local
}

/// A state once a local is forgotten.
pub open spec fn forgotten(state: Seq<Fact>, local: Local) -> Seq<Fact> {
    Seq::new(
        state.len(),
        |i: int|
            if i == local.0 {
                Fact::nothing()
            } else {
                swept(state[i], local)
            },
    )
}

fn sweep(fact: Fact, local: Local) -> (r: Fact)
    ensures
        r == swept(fact, local),
        fact.wf() ==> r.wf(),
{
    let value = match fact.value {
        Some(claim) => if claim.leans_on(local) {
            None
        } else {
            Some(claim)
        },
        None => None,
    };
    let mut order = fact.order;
    order.forget(local);
    let over = match fact.over {
        Some(over) => if over.of == local {
            None
        } else {
            Some(over)
        },
        None => None,
    };
    Fact {
        value,
        order,
        same: cut(fact.same, local),
        paired: cut(fact.paired, local),
        spans: cut(fact.spans, local),
        over,
        ..fact
    }
}

/// Drops what is known about one local, along with every claim that leans
/// on it.
///
/// A claim of sameness or one measured against a slice is only as good as
/// the local it names, so writing that local sweeps those claims with it.
/// Each plane is swept on its own: an ordering against an untouched slice
/// outlives the loss of the value it was learned beside.
pub fn forget(state: &mut State, local: Local)
    requires
        sound(old(state)@),
    ensures
        final(state)@ == forgotten(old(state)@, local),
        sound(final(state)@),
{
    let ghost was = state@;
    let n = state.len();
    let mut i: usize = 0;
    while i < n
        invariant
            n == was.len(),
            state@.len() == n,
            i <= n,
            sound(was),
            forall|k: int| 0 <= k < i ==> #[trigger] state@[k] == forgotten(was, local)[k],
            forall|k: int| i <= k < n ==> #[trigger] state@[k] == was[k],
            sound(state@),
        decreases n - i,
    {
        let fact = if i == local.0 {
            Fact::blank()
        } else {
            sweep(state[i], local)
        };
        assert(fact.wf());
        state.set(i, fact);
        i += 1;
    }
    assert(state@ =~= forgotten(was, local));
}

/// Once a local is forgotten, no claim about anything leans on it.
pub proof fn forgetting_leaves_nothing(state: Seq<Fact>, local: Local, i: int)
    requires
        0 <= i < state.len(),
    ensures
        !leans(forgotten(state, local)[i], local),
        i == local.0 ==> forgotten(state, local)[i] == Fact::nothing(),
{
}

/// Forgetting a local makes room for whatever it holds next: what a state
/// allowed it still allows, whatever that one local measures from then on.
pub proof fn forgetting_is_conservative(
    state: Seq<Fact>,
    local: Local,
    i: int,
    k: Known,
    before: spec_fn(Local) -> int,
    after: spec_fn(Local) -> int,
)
    requires
        0 <= i < state.len(),
        i != local.0 ==> state[i].allows(k, before),
        forall|other: Local| other != local ==> #[trigger] before(other) == after(other),
    ensures
        forgotten(state, local)[i].allows(k, after),
{
}

/// What a retired local still says about something other than itself.
pub open spec fn outliving(held: Fact) -> Fact {
    Fact {
        value: match held.value {
            Some(Claim::Length(of)) => Some(Claim::Length(of)),
            _ => None,
        },
        same: held.same,
        extent: held.extent,
        paired: held.paired,
        spans: held.spans,
        ..Fact::nothing()
    }
}

/// A state once a local's life has ended.
pub open spec fn retired(state: Seq<Fact>, local: Local) -> Seq<Fact> {
    put(forgotten(state, local), local, outliving(spec_held(state, local)))
}

/// Ends the life of a local without losing the trail back to where its value
/// came from.
///
/// A storage marker says the local is gone, not that something else was put
/// there, so a comparison read through it still measured the place it was
/// copied from. Everything the local claimed in its own right goes; what it
/// said about something other than itself outlives it: the trail back to
/// where its value came from, how long the slice it named was, the slice that
/// one matched, and the slice it held the length of.
pub fn retire(state: &mut State, local: Local)
    requires
        sound(old(state)@),
    ensures
        final(state)@ == retired(old(state)@, local),
        sound(final(state)@),
{
    let was = held(state, local);
    forget(state, local);
    let value = match was.value {
        Some(Claim::Length(of)) => Some(Claim::Length(of)),
        _ => None,
    };
    record(
        state,
        local,
        Fact {
            value,
            same: was.same,
            extent: was.extent,
            paired: was.paired,
            spans: was.spans,
            ..Fact::blank()
        },
    );
}

/// A comparison a branch turns into a fact about the local it measured.
#[derive(Debug, Clone, Copy, PartialEq, Eq, Structural)]
pub struct Compared {
    /// The operator, read with the measured local on the left.
    pub op: BinOp,
    pub local: Local,
    pub against: Against,
    /// The local the other side was read from, when it was not written as
    /// a constant. What that local holds now is what the comparison is
    /// read against, so a write to it in between ends the claim.
    pub source: Option<Local>,
    /// The arm the reading is for, when it is for one alone.
    pub arm: Option<bool>,
}

/// What a branch reads, and what its arms therefore prove.
#[derive(Debug)]
pub struct Subject {
    /// The local the branch reads, which every arm settles.
    pub read: Local,
    /// The zero of the type it is read at.
    pub seed: Known,
    /// The comparisons it stands for, when it is a boolean holding one.
    pub compared: Vec<Compared>,
}

/// What a [`Subject`] says.
#[verifier::ext_equal]
pub struct SubjectView {
    pub read: Local,
    pub seed: Known,
    pub compared: Seq<Compared>,
}

impl View for Subject {
    type V = SubjectView;

    open spec fn view(&self) -> SubjectView {
        SubjectView { read: self.read, seed: self.seed, compared: self.compared@ }
    }
}

/// What an optional [`Subject`] says.
pub open spec fn subject_view(subject: Option<Subject>) -> Option<SubjectView> {
    match subject {
        Some(s) => Some(s@),
        None => None,
    }
}

/// Whether the values some readings name are values of their types.
pub open spec fn readings_wf(readings: Seq<Compared>) -> bool {
    forall|i: int| 0 <= i < readings.len() ==> (#[trigger] readings[i]).against.wf()
}

impl SubjectView {
    /// Whether the values named are values of their types.
    pub open spec fn wf(self) -> bool {
        self.seed.wf() && readings_wf(self.compared)
    }
}

/// A value a branch either confirmed or ruled out.
pub open spec fn spec_settle(known: Known, holds: bool) -> Claim {
    if holds {
        Claim::Exact(known)
    } else {
        Claim::spec_other_than(known)
    }
}

/// A value a branch either confirmed or ruled out.
pub fn settle(known: Known, holds: bool) -> (r: Claim)
    requires
        known.wf(),
    ensures
        r == spec_settle(known, holds),
        r.wf(),
{
    if holds {
        Claim::Exact(known)
    } else {
        Claim::other_than(known)
    }
}

/// The slice whose length a local holds.
pub open spec fn behind(state: Seq<Fact>, local: Local) -> Option<Local> {
    match spec_held(state, local).value {
        Some(Claim::Length(of)) => Some(of),
        _ => None,
    }
}

/// Everything the type of a claim admits.
pub open spec fn whole_of(taught: Claim) -> Option<Bounds> {
    match taught.spec_anchor() {
        Some(end) => Bounds::spec_new(end.at(end.min_val()), end.at(end.max_val())),
        None => None,
    }
}

/// A state once the length of the slice behind a local is narrowed.
pub open spec fn stretched(state: Seq<Fact>, of: Local, taught: Claim) -> Seq<Fact> {
    if of.0 >= state.len() {
        state
    } else {
        let first = match state[of.0 as int].extent {
            Some(held) => Some(held),
            None => whole_of(taught),
        };
        match first {
            None => state,
            Some(held) => {
                let narrowed = Claim::Within(held).spec_refined(taught).spec_bounds();
                Seq::new(
                    state.len(),
                    |i: int|
                        if i == of.0 || state[i].value == Some(Claim::Length(of)) {
                            Fact { extent: narrowed, ..state[i] }
                        } else {
                            state[i]
                        },
                )
            },
        }
    }
}

/// Narrows how long the slice behind a local is known to be.
///
/// The claim starts as everything the length's own type admits, so what a
/// guard rules out is all that has to be recorded. A local holding that
/// length describes the same quantity, so it is handed the claim here rather
/// than only where it is read. That is what carries the range through the
/// merge a loop's arms meet at, where the link to the slice does not survive.
pub fn stretch(state: &mut State, of: Local, taught: Claim)
    requires
        sound(old(state)@),
        taught.wf(),
    ensures
        final(state)@ == stretched(old(state)@, of, taught),
        sound(final(state)@),
{
    if of.0 >= state.len() {
        return;
    }
    let ghost was = state@;
    assert(was[of.0 as int].wf());
    let first = match state[of.0].extent {
        Some(held) => Some(held),
        None => match taught.anchor() {
            Some(end) => Bounds::new(end.type_min(), end.type_max()),
            None => None,
        },
    };
    if let Some(held) = first {
        let narrowed = Claim::Within(held).refined(taught).bounds();
        let n = state.len();
        let mut i: usize = 0;
        while i < n
            invariant
                n == was.len(),
                state@.len() == n,
                i <= n,
                of.0 < n,
                sound(was),
                Some(held) == (match was[of.0 as int].extent {
                    Some(held) => Some(held),
                    None => whole_of(taught),
                }),
                narrowed == Claim::Within(held).spec_refined(taught).spec_bounds(),
                match narrowed {
                    Some(b) => b.wf(),
                    None => true,
                },
                forall|k: int|
                    0 <= k < i ==> #[trigger] state@[k] == stretched(was, of, taught)[k],
                forall|k: int| i <= k < n ==> #[trigger] state@[k] == was[k],
                sound(state@),
            decreases n - i,
        {
            let fact = state[i];
            assert(fact == was[i as int]);
            assert(state@[i as int].wf());
            if i == of.0 || fact.value == Some(Claim::Length(of)) {
                state.set(i, Fact { extent: narrowed, ..fact });
            }
            i += 1;
        }
        assert(state@ =~= stretched(was, of, taught));
    }
}

/// A fact once it is taught one more thing about itself.
pub open spec fn taught_fact(slot: Fact, taught: Taught) -> Fact {
    match taught {
        Taught::Value(claim) => Fact {
            value: Some(
                match slot.value {
                    Some(held) => held.spec_refined(claim),
                    None => claim,
                },
            ),
            ..slot
        },
        Taught::Order(rel, of) => Fact {
            order: if itself(slot) {
                Ranks::One(Rank { rel, of })
            } else {
                slot.order.with(rel, of)
            },
            ..slot
        },
        // A value at most a length and not equal to it is below it.
        Taught::Apart(of) => if slot.order.spec_against(of) == Some(LenRel::AtMost) {
            Fact { order: slot.order.with(LenRel::Below, of), ..slot }
        } else {
            slot
        },
        Taught::Alike(_) => slot,
    }
}

/// Whether all a length says of its order is that it is at most itself.
pub open spec fn itself(slot: Fact) -> bool {
    match (slot.value, slot.order.spec_first()) {
        (Some(Claim::Length(mine)), Some(rank)) => rank.rel is AtMost && rank.of == mine,
        _ => false,
    }
}

/// A state once one slice is known to be as long as another.
pub open spec fn paired(state: Seq<Fact>, one: Local, other: Local) -> Seq<Fact> {
    put(state, one, Fact { paired: Some(other), ..spec_held(state, one) })
}

/// A state once a branch has taught something about a local.
///
/// A local holding the length of a slice teaches the slice rather than
/// itself, so a guard on emptiness still stands at the next reading of that
/// length, which is a local of its own. Two lengths measured against each
/// other say nothing about either on its own, so the pair is recorded against
/// the slices, from both ends so that a reading from either settles the
/// comparison.
pub open spec fn learned(state: Seq<Fact>, local: Local, taught: Taught) -> Seq<Fact> {
    match (taught, behind(state, local)) {
        (Taught::Value(claim), Some(of)) => stretched(state, of, claim),
        (Taught::Alike(other), Some(mine)) => if mine == other {
            state
        } else {
            paired(paired(state, mine, other), other, mine)
        },
        (Taught::Alike(_), None) => state,
        _ => put(state, local, taught_fact(spec_held(state, local), taught)),
    }
}

/// Whether the claim taught is one of its type.
pub open spec fn taught_wf(taught: Taught) -> bool {
    match taught {
        Taught::Value(claim) => claim.wf(),
        _ => true,
    }
}

fn teach(slot: Fact, taught: Taught) -> (r: Fact)
    requires
        slot.wf(),
        taught_wf(taught),
    ensures
        r == taught_fact(slot, taught),
        r.wf(),
{
    match taught {
        Taught::Value(claim) => {
            let value = match slot.value {
                Some(held) => held.refined(claim),
                None => claim,
            };
            Fact { value: Some(value), ..slot }
        },
        Taught::Order(rel, of) => {
            let trivial = match (slot.value, slot.order.first()) {
                (Some(Claim::Length(mine)), Some(rank)) => rank.rel == LenRel::AtMost && rank.of
                    == mine,
                _ => false,
            };
            if trivial {
                Fact { order: Ranks::of(rel, of), ..slot }
            } else {
                let mut order = slot.order;
                order.add(rel, of);
                Fact { order, ..slot }
            }
        },
        Taught::Apart(of) => {
            if slot.order.against(of) == Some(LenRel::AtMost) {
                let mut order = slot.order;
                order.add(LenRel::Below, of);
                Fact { order, ..slot }
            } else {
                slot
            }
        },
        Taught::Alike(_) => slot,
    }
}

/// Records what a branch taught, narrowing what was already held.
///
/// A second bound on the same local adds to the first rather than replacing
/// it, so a pair of guards leaves the range they both describe. A settled
/// claim cannot be improved on, and disagreeing with one would mean the arm
/// is unreachable, which this pass does not claim. The two planes fill
/// independently: a counter that is exactly zero can still learn that it is
/// below a length.
pub fn learn(state: &mut State, local: Local, taught: Taught)
    requires
        sound(old(state)@),
        taught_wf(taught),
    ensures
        final(state)@ == learned(old(state)@, local, taught),
        sound(final(state)@),
{
    let slot = held(state, local);
    let of = match slot.value {
        Some(Claim::Length(of)) => Some(of),
        _ => None,
    };
    match (taught, of) {
        (Taught::Value(claim), Some(of)) => {
            stretch(state, of, claim);
        },
        (Taught::Alike(other), Some(mine)) => {
            if mine != other {
                let one = held(state, mine);
                record(state, mine, Fact { paired: Some(other), ..one });
                let two = held(state, other);
                record(state, other, Fact { paired: Some(mine), ..two });
            }
        },
        (Taught::Alike(_), None) => {},
        _ => {
            record(state, local, teach(slot, taught));
        },
    }
}

/// A state once the comparisons behind an arm have been learned from, the
/// first `n` of them.
pub open spec fn compared_so(state: Seq<Fact>, readings: Seq<Compared>, truth: bool, n: nat) -> Seq<
    Fact,
>
    decreases n,
{
    if n == 0 {
        state
    } else {
        let before = compared_so(state, readings, truth, (n - 1) as nat);
        let reading = readings[n - 1];
        if reading.arm == Some(!truth) {
            before
        } else {
            match value::spec_fact_of(reading.op, reading.against, truth) {
                Some(fact) => learned(before, reading.local, fact),
                None => before,
            }
        }
    }
}

/// The state one arm of a branch is entered with.
///
/// A boolean has two arms, so the fallback settles the comparison just as
/// firmly as naming its value does.
pub open spec fn spec_refined(
    state: Seq<Fact>,
    subject: Option<SubjectView>,
    value: Option<u128>,
    matched: bool,
) -> Seq<Fact> {
    match (subject, value) {
        (Some(subject), Some(value)) => {
            let read = Known {
                bits: value::low_bits(value as int, subject.seed.width as nat) as u128,
                ..subject.seed
            };
            let truth = if matched {
                value == 1
            } else {
                value == 0
            };
            compared_so(
                learned(state, subject.read, Taught::Value(spec_settle(read, matched))),
                subject.compared,
                truth,
                subject.compared.len(),
            )
        },
        _ => state,
    }
}

/// Applies what taking one arm of a branch proves.
///
/// `matched` says whether the arm was reached by naming `value` or by being
/// the fallback that everything except `value` avoids. The local the branch
/// read is settled either way, and a boolean standing for a comparison
/// settles the local that was compared as well.
pub fn refined(
    state: &State,
    subject: &Option<Subject>,
    value: Option<u128>,
    matched: bool,
) -> (r: State)
    requires
        sound(state@),
        match subject {
            Some(s) => s@.wf(),
            None => true,
        },
    ensures
        r@ == spec_refined(state@, subject_view(*subject), value, matched),
        sound(r@),
{
    let mut next = copied(state);
    let (subject, value) = match (subject, value) {
        (Some(subject), Some(value)) => (subject, value),
        _ => {
            return next;
        },
    };
    let read = Known { bits: value::truncate(value, subject.seed.width), ..subject.seed };
    learn(&mut next, subject.read, Taught::Value(settle(read, matched)));
    let ghost first = next@;
    let truth = if matched {
        value == 1
    } else {
        value == 0
    };
    let n = subject.compared.len();
    let mut i: usize = 0;
    while i < n
        invariant
            n == subject.compared@.len(),
            i <= n,
            subject@.wf(),
            sound(next@),
            next@ == compared_so(first, subject.compared@, truth, i as nat),
        decreases n - i,
    {
        let reading = subject.compared[i];
        assert(subject.compared@[i as int].against.wf());
        if reading.arm != Some(!truth) {
            if let Some(fact) = fact_of(reading.op, reading.against, truth) {
                learn(&mut next, reading.local, fact);
            }
        }
        i += 1;
    }
    next
}

/// The blocks still to visit, and what each is entered with.
#[verifier::ext_equal]
pub struct Agenda {
    /// What each block is entered with, once it is reached.
    pub entry: Seq<Option<Seq<Fact>>>,
    /// Whether each block waits to be visited.
    pub queued: Seq<bool>,
    /// How often each block's entry has changed.
    pub changes: Seq<u32>,
    /// The blocks that wait, in the order they are visited.
    pub queue: Seq<usize>,
}

/// What one local holds where two states meet.
pub open spec fn met(held: Fact, arriving: Fact, widen: bool, marks: Seq<u128>) -> Fact {
    let next = held.spec_joined(arriving);
    if next == held || !widen {
        next
    } else {
        next.spec_widened(held, marks)
    }
}

/// What a block is entered with once one more state arrives.
pub open spec fn meeting(
    held: Seq<Fact>,
    arriving: Seq<Fact>,
    widen: bool,
    marks: Seq<u128>,
) -> Seq<Fact> {
    Seq::new(
        held.len(),
        |i: int|
            if i < arriving.len() {
                met(held[i], arriving[i], widen, marks)
            } else {
                held[i]
            },
    )
}

/// Whether an arriving state makes one local less definite.
pub open spec fn stirs_at(held: Seq<Fact>, arriving: Seq<Fact>, i: int) -> bool {
    0 <= i < held.len() && i < arriving.len() && held[i].spec_joined(arriving[i]) != held[i]
}

/// Whether an arriving state makes anything less definite.
pub open spec fn stirs(held: Seq<Fact>, arriving: Seq<Fact>) -> bool {
    exists|i: int| #[trigger] stirs_at(held, arriving, i)
}

impl Agenda {
    /// The agenda of a body that has not been entered.
    pub open spec fn fresh(blocks: nat) -> Agenda {
        Agenda {
            entry: Seq::new(blocks, |i: int| None),
            queued: Seq::new(blocks, |i: int| false),
            changes: Seq::new(blocks, |i: int| 0u32),
            queue: Seq::empty(),
        }
    }

    /// Whether what waits is recorded, and what is recorded is sound.
    pub open spec fn wf(self) -> bool {
        &&& self.queued.len() == self.entry.len()
        &&& self.changes.len() == self.entry.len()
        &&& forall|k: int|
            0 <= k < self.queue.len() ==> (#[trigger] self.queue[k]) < self.entry.len()
                && self.entry[self.queue[k] as int] is Some
        &&& forall|b: int|
            0 <= b < self.entry.len() && (#[trigger] self.entry[b]) is Some ==> sound(
                self.entry[b]->Some_0,
            )
    }

    /// The agenda with a block's entry replaced.
    pub open spec fn entered(self, bb: usize, state: Seq<Fact>) -> Agenda {
        Agenda {
            entry: self.entry.update(bb as int, Some(state)),
            queued: self.queued.update(bb as int, true),
            changes: self.changes.update(
                bb as int,
                if self.changes[bb as int] < u32::MAX {
                    (self.changes[bb as int] + 1) as u32
                } else {
                    u32::MAX
                },
            ),
            queue: if self.queued[bb as int] {
                self.queue
            } else {
                self.queue.push(bb)
            },
        }
    }

    /// The agenda once a state has arrived at a block.
    pub open spec fn merged(self, bb: usize, incoming: Seq<Fact>, marks: Seq<u128>) -> Agenda {
        if bb >= self.entry.len() {
            self
        } else {
            match self.entry[bb as int] {
                None => self.entered(bb, incoming),
                Some(held) => if stirs(held, incoming) {
                    self.entered(
                        bb,
                        meeting(held, incoming, self.changes[bb as int] >= PRECISE, marks),
                    )
                } else {
                    self
                },
            }
        }
    }

    /// The agenda once the first block that waits is taken.
    pub open spec fn taken(self) -> Agenda {
        Agenda {
            queued: self.queued.update(self.queue[0] as int, false),
            queue: self.queue.drop_first(),
            ..self
        }
    }
}

/// What arrives at a block is allowed there from then on, and so is what was
/// allowed before.
pub proof fn merging_is_conservative(
    agenda: Agenda,
    bb: usize,
    incoming: Seq<Fact>,
    marks: Seq<u128>,
    i: int,
    k: Known,
    measure: spec_fn(Local) -> int,
)
    requires
        agenda.wf(),
        bb < agenda.entry.len(),
        sound(incoming),
        k.wf(),
        0 <= i < incoming.len(),
        match agenda.entry[bb as int] {
            Some(held) => held.len() == incoming.len() && (held[i].allows(k, measure)
                || incoming[i].allows(k, measure)),
            None => incoming[i].allows(k, measure),
        },
    ensures
        agenda.merged(bb, incoming, marks).entry[bb as int] is Some,
        agenda.merged(bb, incoming, marks).entry[bb as int]->Some_0[i].allows(k, measure),
{
    match agenda.entry[bb as int] {
        None => {},
        Some(held) => {
            let arriving = incoming[i];
            assert(held[i].wf() && arriving.wf());
            value::meeting_is_conservative(held[i], arriving, k, measure);
            let next = held[i].spec_joined(arriving);
            if stirs(held, incoming) {
                if next != held[i] && agenda.changes[bb as int] >= PRECISE {
                    value::widening_facts_is_conservative(next, held[i], marks, k, measure);
                }
            } else {
                assert(!stirs_at(held, incoming, i));
            }
        },
    }
}

/// The blocks still to visit, and what each is entered with.
pub struct Work {
    entry: Vec<Option<State>>,
    queued: Vec<bool>,
    changes: Vec<u32>,
    queue: VecDeque<usize>,
    /// Where a widening step stops before it reaches the end of a type.
    stops: Thresholds,
}

/// What a recorded state says.
pub open spec fn state_view(state: Option<State>) -> Option<Seq<Fact>> {
    match state {
        Some(s) => Some(s@),
        None => None,
    }
}

impl View for Work {
    type V = Agenda;

    closed spec fn view(&self) -> Agenda {
        Agenda {
            entry: Seq::new(self.entry@.len(), |i: int| state_view(self.entry@[i])),
            queued: self.queued@,
            changes: self.changes@,
            queue: self.queue@,
        }
    }
}

impl Work {
    /// The values a widening step stops at.
    pub closed spec fn marks(&self) -> Seq<u128> {
        self.stops.marks@
    }

    /// Prepares a worklist over a body of `blocks` blocks.
    pub fn new(blocks: usize, stops: Thresholds) -> (r: Work)
        ensures
            r@ == Agenda::fresh(blocks as nat),
            r@.wf(),
            r.marks() == stops.marks@,
    {
        let mut entry: Vec<Option<State>> = Vec::new();
        let mut queued: Vec<bool> = Vec::new();
        let mut changes: Vec<u32> = Vec::new();
        let mut i: usize = 0;
        while i < blocks
            invariant
                i <= blocks,
                entry@.len() == i,
                queued@.len() == i,
                changes@.len() == i,
                forall|k: int| 0 <= k < i ==> (#[trigger] entry@[k]) is None,
                forall|k: int| 0 <= k < i ==> !(#[trigger] queued@[k]),
                forall|k: int| 0 <= k < i ==> (#[trigger] changes@[k]) == 0,
            decreases blocks - i,
        {
            entry.push(None);
            queued.push(false);
            changes.push(0);
            i += 1;
        }
        let r = Work { entry, queued, changes, queue: VecDeque::new(), stops };
        assert(r@ =~= Agenda::fresh(blocks as nat));
        r
    }

    fn met(held: Fact, arriving: Fact, widen: bool, stops: &Thresholds) -> (r: Fact)
        requires
            held.wf(),
            arriving.wf(),
        ensures
            r == met(held, arriving, widen, stops.marks@),
            r.wf(),
    {
        let next = held.joined(arriving);
        if next == held || !widen {
            next
        } else {
            next.widened(held, stops)
        }
    }

    fn meet(existing: &State, incoming: &State, widen: bool, stops: &Thresholds) -> (r: (State, bool))
        requires
            sound(existing@),
            sound(incoming@),
        ensures
            r.0@ == meeting(existing@, incoming@, widen, stops.marks@),
            r.1 == stirs(existing@, incoming@),
            sound(r.0@),
    {
        let mut out: State = Vec::new();
        let mut changed = false;
        let n = existing.len();
        let mut i: usize = 0;
        while i < n
            invariant
                n == existing@.len(),
                i <= n,
                out@.len() == i,
                sound(existing@),
                sound(incoming@),
                sound(out@),
                forall|k: int|
                    0 <= k < i ==> #[trigger] out@[k] == meeting(
                        existing@,
                        incoming@,
                        widen,
                        stops.marks@,
                    )[k],
                changed == (exists|k: int| k < i && #[trigger] stirs_at(existing@, incoming@, k)),
            decreases n - i,
        {
            let held = existing[i];
            assert(existing@[i as int].wf());
            let ghost was = changed;
            if i < incoming.len() {
                assert(incoming@[i as int].wf());
                let next = held.joined(incoming[i]);
                if next != held {
                    changed = true;
                    assert(stirs_at(existing@, incoming@, i as int));
                }
                out.push(Work::met(held, incoming[i], widen, stops));
            } else {
                out.push(held);
            }
            i += 1;
        }
        assert(out@ =~= meeting(existing@, incoming@, widen, stops.marks@));
        (out, changed)
    }

    fn enter(&mut self, bb: usize, state: State)
        requires
            old(self)@.wf(),
            bb < old(self)@.entry.len(),
            sound(state@),
        ensures
            final(self)@ == old(self)@.entered(bb, state@),
            final(self)@.wf(),
            final(self).marks() == old(self).marks(),
            final(self)@.entry.len() == old(self)@.entry.len(),
    {
        let ghost was = self@;
        let ghost said = state@;
        self.entry.set(bb, Some(state));
        let seen = self.changes[bb];
        self.changes.set(
            bb,
            if seen < u32::MAX {
                seen + 1
            } else {
                seen
            },
        );
        if !self.queued[bb] {
            self.queued.set(bb, true);
            self.queue.push_back(bb);
        }
        assert(self@.queued =~= was.entered(bb, said).queued);
        assert(self@ =~= was.entered(bb, said));
        assert forall|k: int| 0 <= k < self@.queue.len() implies (#[trigger] self@.queue[k])
            < self@.entry.len() && self@.entry[self@.queue[k] as int] is Some by {
            if k < was.queue.len() {
                assert(self@.queue[k] == was.queue[k]);
            }
        }
    }

    /// Records what a block is entered with, queueing it if that changed.
    ///
    /// A block is first recorded with whatever its predecessor knew, and
    /// afterwards only ever widens: what two predecessors agree on stands,
    /// and what they do not is given up. Past `PRECISE` arrivals a claim
    /// that is still moving is pushed to the end of its type instead, so a
    /// local's claim changes a bounded number of times whatever the shape
    /// of the body. That is what bounds the walk.
    pub fn merge(&mut self, bb: usize, incoming: State)
        requires
            old(self)@.wf(),
            sound(incoming@),
        ensures
            final(self)@ == old(self)@.merged(bb, incoming@, old(self).marks()),
            final(self)@.wf(),
            final(self).marks() == old(self).marks(),
            final(self)@.entry.len() == old(self)@.entry.len(),
    {
        if bb >= self.entry.len() {
            return;
        }
        assert(self@.entry[bb as int] == state_view(self.entry@[bb as int]));
        let widen = self.changes[bb] >= PRECISE;
        let found = match &self.entry[bb] {
            None => None,
            Some(existing) => Some(Work::meet(existing, &incoming, widen, &self.stops)),
        };
        match found {
            None => self.enter(bb, incoming),
            Some((next, changed)) => {
                if changed {
                    self.enter(bb, next);
                }
            },
        }
    }

    /// Whether every block has been visited with its settled state.
    pub fn is_drained(&self) -> (r: bool)
        ensures
            r == (self@.queue.len() == 0),
    {
        self.queue.len() == 0
    }

    /// Takes the next block to visit, with the state it is entered with.
    ///
    /// A block is queued only once its state is recorded, so the state is
    /// always there.
    pub fn pop(&mut self) -> (r: Option<(usize, State)>)
        requires
            old(self)@.wf(),
        ensures
            match r {
                None => old(self)@.queue.len() == 0 && final(self)@ == old(self)@,
                Some((bb, state)) => {
                    &&& old(self)@.queue.len() > 0
                    &&& bb == old(self)@.queue[0]
                    &&& bb < old(self)@.entry.len()
                    &&& old(self)@.entry[bb as int] == Some(state@)
                    &&& sound(state@)
                    &&& final(self)@ == old(self)@.taken()
                },
            },
            final(self)@.wf(),
            final(self).marks() == old(self).marks(),
            final(self)@.entry.len() == old(self)@.entry.len(),
    {
        let ghost was = self@;
        match self.queue.pop_front() {
            None => {
                assert(self@ =~= was);
                None
            },
            Some(bb) => {
                assert(was.queue[0] == bb);
                assert(was.entry[bb as int] == state_view(self.entry@[bb as int]));
                self.queued.set(bb, false);
                assert(self@ =~= was.taken());
                assert forall|k: int| 0 <= k < self@.queue.len() implies (#[trigger] self@.queue[k])
                    < self@.entry.len() && self@.entry[self@.queue[k] as int] is Some by {
                    assert(self@.queue[k] == was.queue[k + 1]);
                }
                match &self.entry[bb] {
                    Some(state) => Some((bb, copied(state))),
                    None => None,
                }
            },
        }
    }
}

/// Where the cleanup path a terminator can take leads.
pub open spec fn unwound(agenda: Agenda, unwind: Unwind, state: Seq<Fact>, marks: Seq<u128>) -> Agenda {
    match unwind {
        Unwind::Cleanup(target) => agenda.merged(target, state, marks),
        _ => agenda,
    }
}

/// Follows the cleanup path a terminator can take.
pub fn unwind_to(unwind: Unwind, state: &State, work: &mut Work)
    requires
        old(work)@.wf(),
        sound(state@),
    ensures
        final(work)@ == unwound(old(work)@, unwind, state@, old(work).marks()),
        final(work)@.wf(),
        final(work).marks() == old(work).marks(),
        final(work)@.entry.len() == old(work)@.entry.len(),
{
    if let Unwind::Cleanup(target) = unwind {
        work.merge(target, copied(state));
    }
}

} // verus!
