//! What a block sends to the blocks it can reach.
//!
//! A terminator is followed by handing each block it can reach a state. The
//! list of those states is the same thing said once, without the agenda they
//! are handed to: following the terminator is delivering the list.

use vstd::prelude::*;

use crate::branch;
use crate::fold;
use crate::fold::{Deeper, Walk};
use crate::mir::{Arm, Assert, Call, Operand, Place, Program, Rvalue, Statement, Terminator, Unwind};
use crate::places;
use crate::places::{Path, Slots};
use crate::read::Lens;
use crate::state;
use crate::state::{Agenda, Compared, SubjectView};
use crate::summary;
use crate::summary::Left;
use crate::value;
use crate::value::{Fact, Local, Taught};

verus! {

/// A state on its way to a block.
#[verifier::ext_equal]
pub struct Sent {
    pub to: usize,
    pub state: Seq<Fact>,
}

/// What is sent once a cleanup path is taken as well.
pub open spec fn unwinding(sent: Seq<Sent>, unwind: Unwind, state: Seq<Fact>) -> Seq<Sent> {
    match unwind {
        Unwind::Cleanup(target) => sent.push(Sent { to: target, state }),
        _ => sent,
    }
}

/// What sends one state to each of the first `n` of some blocks.
pub open spec fn everywhere(blocks: Seq<usize>, state: Seq<Fact>, n: nat) -> Seq<Sent>
    decreases n,
{
    if n == 0 {
        Seq::empty()
    } else {
        everywhere(blocks, state, (n - 1) as nat).push(Sent { to: blocks[n - 1], state })
    }
}

impl Lens {
    /// What a branch sends to the first `n` of its named arms: nothing to one
    /// that a settled condition rules out.
    pub open spec fn arms_sent(
        self,
        stmts: Seq<Statement>,
        discr: Operand,
        arms: Seq<Arm>,
        state: Seq<Fact>,
        n: nat,
    ) -> Seq<Sent>
        decreases n,
    {
        if n == 0 {
            Seq::empty()
        } else {
            let before = self.arms_sent(stmts, discr, arms, state, (n - 1) as nat);
            let arm = arms[n - 1];
            if self.rules_out(state, discr, arm.value) {
                before
            } else {
                before.push(
                    Sent { to: arm.target, state: self.arm_state(stmts, discr, state, arm.value) },
                )
            }
        }
    }

    /// The state the fallback of a branch is entered with.
    pub open spec fn fallback_state(
        self,
        stmts: Seq<Statement>,
        discr: Operand,
        arms: Seq<Arm>,
        state: Seq<Fact>,
    ) -> Seq<Fact> {
        let taken = branch::named_values(arms);
        let rest = if taken.len() == 1 {
            Some(taken[0])
        } else {
            None
        };
        let tagged = self.tagged(stmts, discr, state);
        branch::tag_taught(
            state::spec_refined(state, self.subject_of(stmts, discr, state), rest, false),
            tagged,
            self.leftover(tagged, taken),
        )
    }

    /// What a branch sends: nothing to a fallback that the named arms leave
    /// nothing to.
    pub open spec fn branch_sent(
        self,
        stmts: Seq<Statement>,
        discr: Operand,
        arms: Seq<Arm>,
        otherwise: usize,
        state: Seq<Fact>,
    ) -> Seq<Sent> {
        let named = self.arms_sent(stmts, discr, arms, state, arms.len());
        if self.takes_named(state, discr, arms) || self.covered(
            state,
            discr,
            branch::named_values(arms),
        ) {
            named
        } else {
            named.push(
                Sent { to: otherwise, state: self.fallback_state(stmts, discr, arms, state) },
            )
        }
    }

    /// What a check sends: past it unless it fails every time, and to its
    /// cleanup path unless it holds every time.
    pub open spec fn check_sent(
        self,
        stmts: Seq<Statement>,
        check: Assert,
        state: Seq<Fact>,
    ) -> Seq<Sent> {
        match value::spec_pinned(self.fact(state, check.cond)) {
            Some(known) => if (known.bits != 0) == check.expected {
                seq![Sent { to: check.target, state }]
            } else {
                unwinding(Seq::empty(), check.unwind, state)
            },
            None => unwinding(
                seq![
                    Sent {
                        to: check.target,
                        state: state::spec_refined(
                            state,
                            self.subject_of(stmts, check.cond, state),
                            Some(
                                if check.expected {
                                    1u128
                                } else {
                                    0u128
                                },
                            ),
                            true,
                        ),
                    },
                ],
                check.unwind,
                state,
            ),
        }
    }

    /// The state after a call that was found to leave something behind.
    pub open spec fn answered(self, call: Call, found: fold::Answer) -> Seq<Fact> {
        match self.slot_of(call.destination) {
            Some(slot) => if found.left == Fact::nothing() {
                found.after
            } else {
                state::put(found.after, slot, found.left)
            },
            None => found.after,
        }
    }

    /// What a call sends, once it is known what it was found to do: nothing
    /// to its cleanup path when it raises nothing.
    pub open spec fn call_sent(self, call: Call, state: Seq<Fact>, found: fold::Answer) -> Seq<Sent> {
        let back = match call.target {
            Some(target) => seq![Sent { to: target, state: self.answered(call, found) }],
            None => Seq::empty(),
        };
        if found.quiet {
            back
        } else {
            unwinding(back, call.unwind, places::alias_swept(state, self.places, self.escaped))
        }
    }

    /// What dropping a place sends.
    pub open spec fn drop_sent(
        self,
        place: Place,
        target: usize,
        drop: Option<usize>,
        unwind: Unwind,
        state: Seq<Fact>,
    ) -> Seq<Sent> {
        let after = self.dropped(state, place);
        let first = seq![Sent { to: target, state: after }];
        let second = match drop {
            Some(other) => first.push(Sent { to: other, state: after }),
            None => first,
        };
        unwinding(second, unwind, after)
    }
}

/// What a terminator sends, followed in a state with so much left to spend on
/// callees.
pub open spec fn sends(
    program: Program,
    at: usize,
    depth: u32,
    bb: usize,
    term: Terminator,
    state: Seq<Fact>,
    budget: u32,
    deeper: Deeper,
) -> Seq<Sent> {
    let lens = Lens::of(program, program.functions@[at as int]);
    let stmts = lens.function.blocks@[bb as int].statements@;
    match term {
        Terminator::Goto(target) => seq![Sent { to: target, state }],
        Terminator::Switch(discr, arms, otherwise) => lens.branch_sent(
            stmts,
            discr,
            arms@,
            otherwise,
            state,
        ),
        Terminator::Assert(check) => lens.check_sent(stmts, check, state),
        Terminator::Call(call) => lens.call_sent(
            call,
            state,
            fold::inspected(
                program,
                at,
                depth,
                budget,
                state,
                call,
                lens.dropped(state, call.destination),
                deeper,
            ),
        ),
        Terminator::Drop(place, target, drop, unwind) => lens.drop_sent(
            place,
            target,
            drop,
            unwind,
            state,
        ),
        Terminator::FalseEdge(taken, imagined) => seq![
            Sent { to: taken, state },
            Sent { to: imagined, state },
        ],
        Terminator::FalseUnwind(taken, unwind) => unwinding(
            seq![Sent { to: taken, state }],
            unwind,
            state,
        ),
        Terminator::Yield(blocks) => everywhere(
            blocks@,
            state::spec_blank(state.len()),
            blocks@.len(),
        ),
        Terminator::Assembly(blocks, _) => everywhere(
            blocks@,
            state::spec_blank(state.len()),
            blocks@.len(),
        ),
        _ => Seq::empty(),
    }
}

/// What a block sends, entered with a state and with so much left to spend on
/// callees: nothing where the block stops before its end.
pub open spec fn leaving(
    program: Program,
    at: usize,
    depth: u32,
    bb: usize,
    entry: Seq<Fact>,
    budget: u32,
    deeper: Deeper,
) -> Seq<Sent> {
    let lens = Lens::of(program, program.functions@[at as int]);
    let block = lens.function.blocks@[bb as int];
    match (
        lens.statements(entry, block.statements@, block.statements@.len()),
        block.terminator,
    ) {
        (Some(next), Some(term)) => sends(program, at, depth, bb, term, next, budget, deeper),
        _ => Seq::empty(),
    }
}

/// Whether the values that what is sent names are values of their types.
pub open spec fn all_sound(sent: Seq<Sent>) -> bool {
    forall|j: int| 0 <= j < sent.len() ==> state::sound((#[trigger] sent[j]).state)
}

/// The agenda once each of some states has arrived.
pub open spec fn delivered(agenda: Agenda, sent: Seq<Sent>, marks: Seq<u128>) -> Agenda
    decreases sent.len(),
{
    if sent.len() == 0 {
        agenda
    } else {
        delivered(agenda, sent.drop_last(), marks).merged(sent.last().to, sent.last().state, marks)
    }
}

proof fn delivering_one_more(agenda: Agenda, sent: Seq<Sent>, one: Sent, marks: Seq<u128>)
    ensures
        delivered(agenda, sent.push(one), marks) == delivered(agenda, sent, marks).merged(
            one.to,
            one.state,
            marks,
        ),
{
    assert(sent.push(one).drop_last() =~= sent);
}

proof fn delivering_one(agenda: Agenda, one: Sent, marks: Seq<u128>)
    ensures
        delivered(agenda, seq![one], marks) == agenda.merged(one.to, one.state, marks),
{
    delivering_one_more(agenda, Seq::empty(), one, marks);
    assert(Seq::<Sent>::empty().push(one) =~= seq![one]);
}

proof fn delivering_the_unwound(
    agenda: Agenda,
    sent: Seq<Sent>,
    unwind: Unwind,
    state: Seq<Fact>,
    marks: Seq<u128>,
)
    ensures
        delivered(agenda, unwinding(sent, unwind, state), marks) == state::unwound(
            delivered(agenda, sent, marks),
            unwind,
            state,
            marks,
        ),
{
    match unwind {
        Unwind::Cleanup(target) => {
            delivering_one_more(agenda, sent, Sent { to: target, state }, marks);
        },
        _ => {},
    }
}

proof fn arms_deliver(
    lens: Lens,
    stmts: Seq<Statement>,
    discr: Operand,
    arms: Seq<Arm>,
    state: Seq<Fact>,
    agenda: Agenda,
    marks: Seq<u128>,
    n: nat,
)
    ensures
        lens.arms_followed(stmts, discr, arms, state, agenda, marks, n) == delivered(
            agenda,
            lens.arms_sent(stmts, discr, arms, state, n),
            marks,
        ),
    decreases n,
{
    if n > 0 {
        arms_deliver(lens, stmts, discr, arms, state, agenda, marks, (n - 1) as nat);
        let arm = arms[n - 1];
        delivering_one_more(
            agenda,
            lens.arms_sent(stmts, discr, arms, state, (n - 1) as nat),
            Sent { to: arm.target, state: lens.arm_state(stmts, discr, state, arm.value) },
            marks,
        );
    }
}

proof fn spreading_delivers(w: Walk, blocks: Seq<usize>, state: Seq<Fact>, marks: Seq<u128>, n: nat)
    ensures
        w.spread(blocks, state, marks, n) == (Walk {
            agenda: delivered(w.agenda, everywhere(blocks, state, n), marks),
            ..w
        }),
    decreases n,
{
    if n > 0 {
        spreading_delivers(w, blocks, state, marks, (n - 1) as nat);
        delivering_one_more(
            w.agenda,
            everywhere(blocks, state, (n - 1) as nat),
            Sent { to: blocks[n - 1], state },
            marks,
        );
    }
}

/// Following a terminator is delivering what it sends.
pub proof fn following_delivers(
    program: Program,
    at: usize,
    depth: u32,
    bb: usize,
    term: Terminator,
    state: Seq<Fact>,
    w: Walk,
    marks: Seq<u128>,
    deeper: Deeper,
)
    ensures
        fold::ended(program, at, depth, bb, term, state, w, marks, deeper).agenda == delivered(
            w.agenda,
            sends(program, at, depth, bb, term, state, w.budget, deeper),
            marks,
        ),
{
    reveal(fold::ended);
    let lens = Lens::of(program, program.functions@[at as int]);
    let stmts = lens.function.blocks@[bb as int].statements@;
    let a = w.agenda;
    match term {
        Terminator::Goto(target) => {
            delivering_one(a, Sent { to: target, state }, marks);
        },
        Terminator::Switch(discr, arms, otherwise) => {
            arms_deliver(lens, stmts, discr, arms@, state, a, marks, arms@.len());
            delivering_one_more(
                a,
                lens.arms_sent(stmts, discr, arms@, state, arms@.len()),
                Sent { to: otherwise, state: lens.fallback_state(stmts, discr, arms@, state) },
                marks,
            );
        },
        Terminator::Assert(check) => {
            let refined = state::spec_refined(
                state,
                lens.subject_of(stmts, check.cond, state),
                Some(
                    if check.expected {
                        1u128
                    } else {
                        0u128
                    },
                ),
                true,
            );
            let past = Sent { to: check.target, state: refined };
            delivering_one(a, Sent { to: check.target, state }, marks);
            delivering_one(a, past, marks);
            delivering_the_unwound(a, Seq::empty(), check.unwind, state, marks);
            delivering_the_unwound(a, seq![past], check.unwind, state, marks);
        },
        Terminator::Call(call) => {
            reveal(fold::called);
            let found = fold::inspected(
                program,
                at,
                depth,
                w.budget,
                state,
                call,
                lens.dropped(state, call.destination),
                deeper,
            );
            let swept = places::alias_swept(state, lens.places, lens.escaped);
            match call.target {
                Some(target) => {
                    let back = Sent { to: target, state: lens.answered(call, found) };
                    delivering_one(a, back, marks);
                    delivering_the_unwound(a, seq![back], call.unwind, swept, marks);
                },
                None => {
                    delivering_the_unwound(a, Seq::empty(), call.unwind, swept, marks);
                },
            }
        },
        Terminator::Drop(place, target, drop, unwind) => {
            let after = lens.dropped(state, place);
            let first = Sent { to: target, state: after };
            delivering_one(a, first, marks);
            match drop {
                Some(other) => {
                    let second = Sent { to: other, state: after };
                    delivering_one_more(a, seq![first], second, marks);
                    delivering_the_unwound(a, seq![first].push(second), unwind, after, marks);
                },
                None => {
                    delivering_the_unwound(a, seq![first], unwind, after, marks);
                },
            }
        },
        Terminator::FalseEdge(taken, imagined) => {
            let first = Sent { to: taken, state };
            let second = Sent { to: imagined, state };
            delivering_one(a, first, marks);
            delivering_one_more(a, seq![first], second, marks);
            assert(seq![first].push(second) =~= seq![first, second]);
        },
        Terminator::FalseUnwind(taken, unwind) => {
            let first = Sent { to: taken, state };
            delivering_one(a, first, marks);
            delivering_the_unwound(a, seq![first], unwind, state, marks);
        },
        Terminator::Yield(blocks) => {
            spreading_delivers(w, blocks@, state::spec_blank(state.len()), marks, blocks@.len());
        },
        Terminator::Assembly(blocks, _) => {
            spreading_delivers(w, blocks@, state::spec_blank(state.len()), marks, blocks@.len());
        },
        _ => {},
    }
}

proof fn sweeping_keeps_length(
    state: Seq<Fact>,
    slots: Slots,
    gone: spec_fn(Path) -> bool,
    n: nat,
)
    ensures
        places::swept_where(state, slots, gone, n).len() == state.len(),
    decreases n,
{
    if n > 0 {
        sweeping_keeps_length(state, slots, gone, (n - 1) as nat);
    }
}

proof fn overwriting_keeps_length(lens: Lens, state: Seq<Fact>, place: Place)
    ensures
        lens.overwritten(state, place).len() == state.len(),
        lens.dropped(state, place).len() == state.len(),
{
    let n = lens.places.paths.len();
    let forgotten = state::forgotten(state, place.local);
    sweeping_keeps_length(forgotten, lens.places, places::based_on(place.local), n);
    let written = if place.spec_through() {
        state
    } else {
        places::base_swept(forgotten, lens.places, place.local)
    };
    sweeping_keeps_length(written, lens.places, places::decided_by(place.local), n);
    let moved = places::index_swept(written, lens.places, place.local);
    sweeping_keeps_length(moved, lens.places, places::exposed(lens.escaped), n);
    sweeping_keeps_length(
        lens.overwritten(state, place),
        lens.places,
        places::exposed(lens.escaped),
        n,
    );
}

proof fn filling_keeps_length(
    lens: Lens,
    state: Seq<Fact>,
    place: Place,
    variant: Option<u32>,
    fields: Seq<Operand>,
    n: nat,
)
    ensures
        lens.filled(state, place, variant, fields, n).len() == state.len(),
    decreases n,
{
    if n > 0 {
        filling_keeps_length(lens, state, place, variant, fields, (n - 1) as nat);
    }
}

proof fn assigning_keeps_length(lens: Lens, state: Seq<Fact>, place: Place, rvalue: Rvalue)
    ensures
        lens.assigned(state, place, rvalue).len() == state.len(),
{
    overwriting_keeps_length(lens, state, place);
    let fact = lens.rvalue(state, rvalue);
    let target = lens.slot_of(place);
    let swept = lens.overwritten(state, place);
    let held = match target {
        Some(slot) => state::put(
            swept,
            slot,
            if fact.same == target {
                Fact { same: None, ..fact }
            } else {
                fact
            },
        ),
        None => swept,
    };
    match rvalue {
        Rvalue::Aggregate(build, fields) => {
            match places::spec_variant_built(build) {
                Some(variant) => {
                    filling_keeps_length(lens, held, place, variant, fields@, fields@.len());
                },
                None => {},
            }
        },
        _ => {},
    }
}

proof fn a_statement_keeps_length(lens: Lens, state: Seq<Fact>, stmt: Statement)
    ensures
        match lens.statement(state, stmt) {
            Some(next) => next.len() == state.len(),
            None => true,
        },
{
    let n = lens.places.paths.len();
    match stmt {
        Statement::Assign(place, rvalue) => {
            assigning_keeps_length(lens, state, place, rvalue);
        },
        Statement::SetDiscriminant(place, variant) => {
            overwriting_keeps_length(lens, state, place);
        },
        Statement::StorageLive(local) => {
            unnaming_keeps_length(lens, state::forgotten(state, local), local);
        },
        Statement::StorageDead(local) => {
            unnaming_keeps_length(lens, state::retired(state, local), local);
        },
        Statement::Copy(_) => {
            sweeping_keeps_length(state, lens.places, places::exposed(lens.escaped), n);
        },
        _ => {},
    }
}

proof fn unnaming_keeps_length(lens: Lens, state: Seq<Fact>, local: Local)
    ensures
        lens.unnamed(state, local).len() == state.len(),
{
    let n = lens.places.paths.len();
    sweeping_keeps_length(state, lens.places, places::based_on(local), n);
    sweeping_keeps_length(
        places::base_swept(state, lens.places, local),
        lens.places,
        places::decided_by(local),
        n,
    );
}

proof fn statements_keep_length(lens: Lens, state: Seq<Fact>, stmts: Seq<Statement>, n: nat)
    ensures
        match lens.statements(state, stmts, n) {
            Some(next) => next.len() == state.len(),
            None => true,
        },
    decreases n,
{
    if n > 0 {
        statements_keep_length(lens, state, stmts, (n - 1) as nat);
        match lens.statements(state, stmts, (n - 1) as nat) {
            Some(before) => {
                a_statement_keeps_length(lens, before, stmts[n - 1]);
            },
            None => {},
        }
    }
}

proof fn comparing_keeps_length(
    state: Seq<Fact>,
    readings: Seq<Compared>,
    truth: bool,
    n: nat,
)
    ensures
        state::compared_so(state, readings, truth, n).len() == state.len(),
    decreases n,
{
    if n > 0 {
        comparing_keeps_length(state, readings, truth, (n - 1) as nat);
    }
}

proof fn refining_keeps_length(
    state: Seq<Fact>,
    subject: Option<SubjectView>,
    value: Option<u128>,
    matched: bool,
)
    ensures
        state::spec_refined(state, subject, value, matched).len() == state.len(),
{
    match (subject, value) {
        (Some(subject), Some(value)) => {
            let read = value::Known {
                bits: value::low_bits(value as int, subject.seed.width as nat) as u128,
                ..subject.seed
            };
            let truth = if matched {
                value == 1
            } else {
                value == 0
            };
            comparing_keeps_length(
                state::learned(
                    state,
                    subject.read,
                    Taught::Value(state::spec_settle(read, matched)),
                ),
                subject.compared,
                truth,
                subject.compared.len(),
            );
        },
        _ => {},
    }
}

proof fn handing_back_keeps_length(
    lens: Lens,
    after: Seq<Fact>,
    destination: Place,
    returned: Seq<Left>,
    n: nat,
)
    ensures
        summary::handed_back(lens, after, destination, returned, n).len() == after.len(),
    decreases n,
{
    if n > 0 {
        handing_back_keeps_length(lens, after, destination, returned, (n - 1) as nat);
    }
}

proof fn inspecting_keeps_length(
    program: Program,
    at: usize,
    depth: u32,
    budget: u32,
    state: Seq<Fact>,
    call: Call,
    after: Seq<Fact>,
    deeper: Deeper,
)
    ensures
        fold::inspected(program, at, depth, budget, state, call, after, deeper).after.len()
            == after.len(),
{
    reveal(fold::inspected);
    let lens = Lens::of(program, program.functions@[at as int]);
    match fold::spec_target(program, at, depth, budget, call) {
        Some(to) => {
            let callee = Lens::of(program, program.functions@[to as int]);
            let walk = deeper(to, budget, lens.carried(state, callee, call.args@));
            handing_back_keeps_length(
                lens,
                after,
                call.destination,
                walk.returned,
                walk.returned.len(),
            );
        },
        None => {},
    }
}

/// Whether every state sent is about so many slots.
pub open spec fn all_long(sent: Seq<Sent>, slots: nat) -> bool {
    forall|j: int| 0 <= j < sent.len() ==> (#[trigger] sent[j]).state.len() == slots
}

proof fn arms_keep_length(
    lens: Lens,
    stmts: Seq<Statement>,
    discr: Operand,
    arms: Seq<Arm>,
    state: Seq<Fact>,
    n: nat,
)
    ensures
        all_long(lens.arms_sent(stmts, discr, arms, state, n), state.len()),
    decreases n,
{
    if n > 0 {
        arms_keep_length(lens, stmts, discr, arms, state, (n - 1) as nat);
        refining_keeps_length(
            state,
            lens.subject_of(stmts, discr, state),
            Some(arms[n - 1].value),
            true,
        );
    }
}

proof fn spreading_keeps_length(blocks: Seq<usize>, state: Seq<Fact>, n: nat)
    ensures
        all_long(everywhere(blocks, state, n), state.len()),
    decreases n,
{
    if n > 0 {
        spreading_keeps_length(blocks, state, (n - 1) as nat);
    }
}

proof fn calling_keeps_length(lens: Lens, call: Call, state: Seq<Fact>, found: fold::Answer)
    requires
        found.after.len() == state.len(),
    ensures
        all_long(lens.call_sent(call, state, found), state.len()),
{
    sweeping_keeps_length(
        state,
        lens.places,
        places::exposed(lens.escaped),
        lens.places.paths.len(),
    );
}

proof fn sending_keeps_length(
    program: Program,
    at: usize,
    depth: u32,
    bb: usize,
    term: Terminator,
    state: Seq<Fact>,
    budget: u32,
    deeper: Deeper,
)
    ensures
        all_long(sends(program, at, depth, bb, term, state, budget, deeper), state.len()),
{
    let lens = Lens::of(program, program.functions@[at as int]);
    let stmts = lens.function.blocks@[bb as int].statements@;
    match term {
        Terminator::Switch(discr, arms, otherwise) => {
            let taken = branch::named_values(arms@);
            let rest = if taken.len() == 1 {
                Some(taken[0])
            } else {
                None
            };
            arms_keep_length(lens, stmts, discr, arms@, state, arms@.len());
            refining_keeps_length(state, lens.subject_of(stmts, discr, state), rest, false);
        },
        Terminator::Assert(check) => {
            let subject = lens.subject_of(stmts, check.cond, state);
            refining_keeps_length(state, subject, Some(1u128), true);
            refining_keeps_length(state, subject, Some(0u128), true);
        },
        Terminator::Call(call) => {
            overwriting_keeps_length(lens, state, call.destination);
            let after = lens.dropped(state, call.destination);
            inspecting_keeps_length(program, at, depth, budget, state, call, after, deeper);
            let found = fold::inspected(
                program,
                at,
                depth,
                budget,
                state,
                call,
                after,
                deeper,
            );
            calling_keeps_length(lens, call, state, found);
        },
        Terminator::Drop(place, target, drop, unwind) => {
            overwriting_keeps_length(lens, state, place);
        },
        Terminator::Yield(blocks) => {
            spreading_keeps_length(blocks@, state::spec_blank(state.len()), blocks@.len());
        },
        Terminator::Assembly(blocks, _) => {
            spreading_keeps_length(blocks@, state::spec_blank(state.len()), blocks@.len());
        },
        _ => {},
    }
}

/// What a block sends is about the slots it was entered with.
pub proof fn leaving_keeps_length(
    program: Program,
    at: usize,
    depth: u32,
    bb: usize,
    entry: Seq<Fact>,
    budget: u32,
    deeper: Deeper,
)
    ensures
        all_long(leaving(program, at, depth, bb, entry, budget, deeper), entry.len()),
{
    let lens = Lens::of(program, program.functions@[at as int]);
    let block = lens.function.blocks@[bb as int];
    let stmts = block.statements@;
    statements_keep_length(lens, entry, stmts, stmts.len());
    match (lens.statements(entry, stmts, stmts.len()), block.terminator) {
        (Some(state), Some(term)) => {
            sending_keeps_length(program, at, depth, bb, term, state, budget, deeper);
        },
        _ => {},
    }
}

} // verus!
