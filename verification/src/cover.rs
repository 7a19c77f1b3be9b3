//! What the entries a walk records cover.
//!
//! An entry stands for every state that arrives at its block. What is shown
//! here is that it does: once nothing waits, each state a block sends from its
//! final entry arrives at a block whose own final entry claims no more than
//! that state does. A verdict drawn from the final entries is then one about
//! every path.

use vstd::prelude::*;

use crate::edges;
use crate::edges::Sent;
use crate::fixpoint;
use crate::fold;
use crate::fold::{Deeper, Walk};
use crate::mir::Program;
use crate::read::Lens;
use crate::state;
use crate::state::Agenda;
use crate::value;
use crate::value::{Bounds, Claim, Fact, Known, Local};

verus! {

/// Whether a value lies within what is known of a length.
pub open spec fn within(extent: Option<Bounds>, k: Known) -> bool {
    match extent {
        Some(range) => range.holds(k),
        None => true,
    }
}

/// Whether an option says something only where another says the same.
pub open spec fn agrees<T>(entry: Option<T>, arriving: Option<T>) -> bool {
    entry is Some ==> entry == arriving
}

/// Whether one fact claims no more than another: it allows every value the
/// other allows, and each link it keeps is one the other holds.
#[verifier::opaque]
pub open spec fn fact_covers(entry: Fact, arriving: Fact) -> bool {
    &&& forall|k: Known, measure: spec_fn(Local) -> int|
        #![trigger entry.allows(k, measure)]
        #![trigger arriving.allows(k, measure)]
        k.wf() && arriving.allows(k, measure) ==> entry.allows(k, measure)
    &&& forall|k: Known|
        #![trigger within(entry.extent, k)]
        #![trigger within(arriving.extent, k)]
        k.wf() && within(arriving.extent, k) ==> within(entry.extent, k)
    &&& agrees(entry.same, arriving.same)
    &&& agrees(entry.paired, arriving.paired)
    &&& agrees(entry.spans, arriving.spans)
    &&& agrees(entry.over, arriving.over)
    &&& agrees(entry.tag, arriving.tag)
    &&& entry.address ==> arriving.address
}

proof fn a_fact_covers_itself(fact: Fact)
    ensures
        fact_covers(fact, fact),
{
    reveal(fact_covers);
}

proof fn covering_facts_chains(a: Fact, b: Fact, c: Fact)
    requires
        fact_covers(a, b),
        fact_covers(b, c),
    ensures
        fact_covers(a, c),
{
    reveal(fact_covers);
}

proof fn joining_covers(held: Fact, arriving: Fact)
    requires
        held.wf(),
        arriving.wf(),
    ensures
        fact_covers(held.spec_joined(arriving), held),
        fact_covers(held.spec_joined(arriving), arriving),
        held.spec_joined(arriving).wf(),
{
    reveal(fact_covers);
    let next = held.spec_joined(arriving);
    assert forall|k: Known, measure: spec_fn(Local) -> int|
        k.wf() && (held.allows(k, measure) || arriving.allows(k, measure)) implies #[trigger] next.allows(
        k,
        measure,
    ) by {
        value::meeting_is_conservative(held, arriving, k, measure);
    }
}

proof fn widening_covers(now: Fact, was: Fact, marks: Seq<u128>)
    requires
        now.wf(),
        was.wf(),
    ensures
        fact_covers(now.spec_widened(was, marks), now),
        now.spec_widened(was, marks).wf(),
{
    reveal(fact_covers);
    let wider = now.spec_widened(was, marks);
    assert forall|k: Known, measure: spec_fn(Local) -> int|
        k.wf() && now.allows(k, measure) implies #[trigger] wider.allows(k, measure) by {
        value::widening_facts_is_conservative(now, was, marks, k, measure);
    }
    let measure = |local: Local| 0int;
    assert forall|k: Known| k.wf() && within(now.extent, k) implies #[trigger] within(
        wider.extent,
        k,
    ) by {
        match (now.extent, was.extent) {
            (Some(a), Some(b)) => {
                value::widening_is_conservative(
                    Claim::Within(a),
                    Claim::Within(b),
                    marks,
                    k,
                    measure,
                );
            },
            _ => {},
        }
    }
    match (now.value, was.value) {
        (Some(a), Some(b)) => {
            value::widening_stays_wf(a, b, marks);
        },
        _ => {},
    }
    match (now.extent, was.extent) {
        (Some(a), Some(b)) => {
            value::widening_stays_wf(Claim::Within(a), Claim::Within(b), marks);
        },
        _ => {},
    }
}

proof fn meeting_covers(held: Fact, arriving: Fact, widen: bool, marks: Seq<u128>)
    requires
        held.wf(),
        arriving.wf(),
    ensures
        fact_covers(state::met(held, arriving, widen, marks), held),
        fact_covers(state::met(held, arriving, widen, marks), arriving),
        state::met(held, arriving, widen, marks).wf(),
{
    let next = held.spec_joined(arriving);
    joining_covers(held, arriving);
    if next != held && widen {
        widening_covers(next, held, marks);
        let wider = next.spec_widened(held, marks);
        covering_facts_chains(wider, next, held);
        covering_facts_chains(wider, next, arriving);
    }
}

/// Whether one state claims no more than another of as many slots.
pub open spec fn covers(entry: Seq<Fact>, arriving: Seq<Fact>) -> bool {
    &&& entry.len() == arriving.len()
    &&& forall|i: int| 0 <= i < entry.len() ==> #[trigger] fact_covers(entry[i], arriving[i])
}

proof fn a_state_covers_itself(state: Seq<Fact>)
    ensures
        covers(state, state),
{
    assert forall|i: int| 0 <= i < state.len() implies #[trigger] fact_covers(
        state[i],
        state[i],
    ) by {
        a_fact_covers_itself(state[i]);
    }
}

proof fn covering_chains(a: Seq<Fact>, b: Seq<Fact>, c: Seq<Fact>)
    requires
        covers(a, b),
        covers(b, c),
    ensures
        covers(a, c),
{
    assert forall|i: int| 0 <= i < a.len() implies #[trigger] fact_covers(a[i], c[i]) by {
        assert(fact_covers(a[i], b[i]));
        assert(fact_covers(b[i], c[i]));
        covering_facts_chains(a[i], b[i], c[i]);
    }
}

/// Whether a state sent to a block of the body has arrived there: an entry is
/// recorded for the block, and it claims no more than the state.
pub open spec fn received(a: Agenda, one: Sent) -> bool {
    one.to < a.entry.len() ==> match a.entry[one.to as int] {
        Some(entry) => covers(entry, one.state),
        None => false,
    }
}

/// Whether all that was sent has arrived.
pub open spec fn arrived(a: Agenda, sent: Seq<Sent>) -> bool {
    forall|j: int| 0 <= j < sent.len() ==> received(a, #[trigger] sent[j])
}

/// Whether every entry recorded is about so many slots.
pub open spec fn entries_long(a: Agenda, slots: nat) -> bool {
    forall|b: int|
        0 <= b < a.entry.len() && (#[trigger] a.entry[b]) is Some ==> a.entry[b]->Some_0.len()
            == slots
}

/// Whether each entry of an agenda is covered by that of another.
pub open spec fn grows(a: Agenda, b: Agenda) -> bool {
    &&& b.entry.len() == a.entry.len()
    &&& forall|k: int|
        0 <= k < a.entry.len() && (#[trigger] a.entry[k]) is Some ==> match b.entry[k] {
            Some(entry) => covers(entry, a.entry[k]->Some_0),
            None => false,
        }
}

proof fn staying_grows(a: Agenda)
    ensures
        grows(a, a),
{
    assert forall|k: int| 0 <= k < a.entry.len() && (#[trigger] a.entry[k]) is Some implies covers(
        a.entry[k]->Some_0,
        a.entry[k]->Some_0,
    ) by {
        a_state_covers_itself(a.entry[k]->Some_0);
    }
}

proof fn growing_chains(a: Agenda, b: Agenda, c: Agenda)
    requires
        grows(a, b),
        grows(b, c),
    ensures
        grows(a, c),
{
    assert forall|k: int| 0 <= k < a.entry.len() && (#[trigger] a.entry[k]) is Some implies match c.entry[k] {
        Some(entry) => covers(entry, a.entry[k]->Some_0),
        None => false,
    } by {
        assert(b.entry[k] is Some);
        covering_chains(c.entry[k]->Some_0, b.entry[k]->Some_0, a.entry[k]->Some_0);
    }
}

proof fn growing_keeps_received(a: Agenda, b: Agenda, one: Sent)
    requires
        grows(a, b),
        received(a, one),
    ensures
        received(b, one),
{
    if one.to < a.entry.len() {
        assert(a.entry[one.to as int] is Some);
        covering_chains(
            b.entry[one.to as int]->Some_0,
            a.entry[one.to as int]->Some_0,
            one.state,
        );
    }
}

proof fn growing_keeps_arrived(a: Agenda, b: Agenda, sent: Seq<Sent>)
    requires
        grows(a, b),
        arrived(a, sent),
    ensures
        arrived(b, sent),
{
    assert forall|j: int| 0 <= j < sent.len() implies received(b, #[trigger] sent[j]) by {
        growing_keeps_received(a, b, sent[j]);
    }
}

/// A state that arrives at a block is covered there from then on, and so is
/// all that arrived before.
pub proof fn arriving_covers(a: Agenda, one: Sent, marks: Seq<u128>, slots: nat)
    requires
        a.wf(),
        entries_long(a, slots),
        state::sound(one.state),
        one.state.len() == slots,
    ensures
        ({
            let b = a.merged(one.to, one.state, marks);
            &&& received(b, one)
            &&& grows(a, b)
            &&& b.wf()
            &&& entries_long(b, slots)
        }),
{
    let b = a.merged(one.to, one.state, marks);
    staying_grows(a);
    if one.to < a.entry.len() {
        let bb = one.to as int;
        match a.entry[bb] {
            None => {
                a_state_covers_itself(one.state);
            },
            Some(held) => {
                assert(state::sound(held));
                let widen = a.changes[bb] >= state::PRECISE;
                let next = state::meeting(held, one.state, widen, marks);
                assert forall|i: int| 0 <= i < held.len() implies {
                    &&& #[trigger] fact_covers(next[i], held[i])
                    &&& fact_covers(next[i], one.state[i])
                    &&& next[i].wf()
                } by {
                    meeting_covers(held[i], one.state[i], widen, marks);
                }
                if state::stirs(held, one.state) {
                    assert(covers(next, held));
                    assert forall|i: int| 0 <= i < next.len() implies #[trigger] fact_covers(
                        next[i],
                        one.state[i],
                    ) by {
                        assert(fact_covers(next[i], held[i]));
                    }
                    assert(state::sound(next)) by {
                        assert forall|i: int| 0 <= i < next.len() implies (
                        #[trigger] next[i]).wf() by {
                            assert(fact_covers(next[i], held[i]));
                        }
                    }
                } else {
                    assert forall|i: int| 0 <= i < held.len() implies #[trigger] fact_covers(
                        held[i],
                        one.state[i],
                    ) by {
                        assert(!state::stirs_at(held, one.state, i));
                        joining_covers(held[i], one.state[i]);
                    }
                }
            },
        }
        assert forall|k: int| 0 <= k < b.queue.len() implies (#[trigger] b.queue[k])
            < b.entry.len() && b.entry[b.queue[k] as int] is Some by {
            if k < a.queue.len() {
                assert(b.queue[k] == a.queue[k]);
            }
        }
        assert forall|k: int| 0 <= k < b.entry.len() && (#[trigger] b.entry[k]) is Some implies {
            &&& state::sound(b.entry[k]->Some_0)
            &&& b.entry[k]->Some_0.len() == slots
        } by {
            if k != bb {
                assert(b.entry[k] == a.entry[k]);
            } else {
                assert(a.entry[k] is Some ==> a.entry[k]->Some_0.len() == slots);
            }
        }
        assert forall|k: int|
            0 <= k < a.entry.len() && (#[trigger] a.entry[k]) is Some implies match b.entry[k] {
            Some(entry) => covers(entry, a.entry[k]->Some_0),
            None => false,
        } by {
            if k != bb {
                assert(b.entry[k] == a.entry[k]);
            }
            a_state_covers_itself(a.entry[k]->Some_0);
        }
    }
}

/// And so are any number of them.
pub proof fn delivering_covers(a: Agenda, sent: Seq<Sent>, marks: Seq<u128>, slots: nat)
    requires
        a.wf(),
        entries_long(a, slots),
        edges::all_sound(sent),
        edges::all_long(sent, slots),
    ensures
        ({
            let b = edges::delivered(a, sent, marks);
            &&& arrived(b, sent)
            &&& grows(a, b)
            &&& b.wf()
            &&& entries_long(b, slots)
        }),
    decreases sent.len(),
{
    if sent.len() == 0 {
        staying_grows(a);
    } else {
        let rest = sent.drop_last();
        let one = sent.last();
        assert forall|j: int| 0 <= j < rest.len() implies state::sound((#[trigger] rest[j]).state)
            && rest[j].state.len() == slots by {
            assert(rest[j] == sent[j]);
        }
        delivering_covers(a, rest, marks, slots);
        let before = edges::delivered(a, rest, marks);
        let b = edges::delivered(a, sent, marks);
        assert(one == sent[sent.len() - 1]);
        arriving_covers(before, one, marks, slots);
        growing_chains(a, before, b);
        assert forall|j: int| 0 <= j < sent.len() implies received(b, #[trigger] sent[j]) by {
            if j < rest.len() {
                assert(rest[j] == sent[j]);
                growing_keeps_received(before, b, sent[j]);
            }
        }
    }
}

/// Whether all that a block sends from its entry has arrived, with what was
/// left to spend on callees when it was last visited.
pub open spec fn block_covered(
    program: Program,
    at: usize,
    depth: u32,
    a: Agenda,
    b: int,
    deeper: Deeper,
) -> bool {
    match a.entry[b] {
        Some(held) => exists|budget: u32|
            arrived(
                a,
                #[trigger] edges::leaving(program, at, depth, b as usize, held, budget, deeper),
            ),
        None => true,
    }
}

/// Whether a walk holds what the entries it ends with are to cover: each block
/// that does not wait has had all it sends arrive, and so has the state the
/// body is entered with.
pub open spec fn kept(
    program: Program,
    at: usize,
    depth: u32,
    entry: Seq<Fact>,
    a: Agenda,
    deeper: Deeper,
) -> bool {
    &&& a.wf()
    &&& entries_long(a, entry.len())
    &&& fixpoint::all_waiting(a)
    &&& received(a, Sent { to: 0, state: entry })
    &&& forall|b: int|
        0 <= b < a.entry.len() && !#[trigger] a.queued[b] ==> block_covered(
            program,
            at,
            depth,
            a,
            b,
            deeper,
        )
}

/// Whether the entries a walk ends with are closed under what the blocks send:
/// the first block's covers the state the body is entered with, and whatever
/// any block sends from its own has arrived.
pub open spec fn closed_under_sending(
    program: Program,
    at: usize,
    depth: u32,
    entry: Seq<Fact>,
    a: Agenda,
    deeper: Deeper,
) -> bool {
    &&& received(a, Sent { to: 0, state: entry })
    &&& forall|b: int|
        0 <= b < a.entry.len() ==> #[trigger] block_covered(program, at, depth, a, b, deeper)
}

/// A walk holds that before its first visit.
pub proof fn beginning_keeps(
    program: Program,
    at: usize,
    depth: u32,
    budget: u32,
    entry: Seq<Fact>,
    deeper: Deeper,
)
    requires
        state::sound(entry),
        program.functions@[at as int].blocks@.len() <= usize::MAX,
    ensures
        kept(
            program,
            at,
            depth,
            entry,
            fold::begun(program.functions@[at as int], budget, entry).agenda,
            deeper,
        ),
{
    let function = program.functions@[at as int];
    let fresh = Agenda::fresh(function.blocks@.len());
    let marks = fold::spec_stops(function);
    let one = Sent { to: 0, state: entry };
    arriving_covers(fresh, one, marks, entry.len());
    fixpoint::arriving_follows(fresh, 0, entry, marks);
    let a = fresh.merged(0, entry, marks);
    assert forall|b: int| 0 <= b < a.entry.len() && !#[trigger] a.queued[b] implies block_covered(
        program,
        at,
        depth,
        a,
        b,
        deeper,
    ) by {
        assert(a.entry[b] == fresh.entry[b]);
    }
}

/// A visit keeps it, where what the block sends is sound.
pub proof fn visiting_keeps(
    program: Program,
    at: usize,
    depth: u32,
    entry: Seq<Fact>,
    w: Walk,
    marks: Seq<u128>,
    deeper: Deeper,
)
    requires
        w.agenda.queue.len() > 0,
        w.budget > 0,
        w.agenda.entry.len() <= usize::MAX,
        kept(program, at, depth, entry, w.agenda, deeper),
        edges::all_sound(
            edges::leaving(
                program,
                at,
                depth,
                w.agenda.queue[0],
                w.agenda.entry[w.agenda.queue[0] as int]->Some_0,
                (w.budget - 1) as u32,
                deeper,
            ),
        ),
    ensures
        kept(
            program,
            at,
            depth,
            entry,
            fold::visited(
                program,
                at,
                depth,
                w.agenda.queue[0],
                w.agenda.entry[w.agenda.queue[0] as int]->Some_0,
                Walk { agenda: w.agenda.taken(), budget: (w.budget - 1) as u32, ..w },
                marks,
                deeper,
            ).agenda,
            deeper,
        ),
{
    let bb = w.agenda.queue[0];
    let held = w.agenda.entry[bb as int]->Some_0;
    let budget = (w.budget - 1) as u32;
    let taken = w.agenda.taken();
    let sent = edges::leaving(program, at, depth, bb, held, budget, deeper);
    let walk = Walk { agenda: taken, budget, ..w };
    let r = fold::visited(program, at, depth, bb, held, walk, marks, deeper).agenda;
    fixpoint::taking_keeps_waiting(w.agenda);
    assert(taken.wf());
    leaving_delivers(program, at, depth, bb, held, walk, marks, deeper);
    edges::leaving_keeps_length(program, at, depth, bb, held, budget, deeper);
    delivering_covers(taken, sent, marks, entry.len());
    fixpoint::delivering_follows(taken, sent, marks);
    growing_keeps_received(taken, r, Sent { to: 0, state: entry });
    assert forall|b: int| 0 <= b < r.entry.len() && !#[trigger] r.queued[b] implies block_covered(
        program,
        at,
        depth,
        r,
        b,
        deeper,
    ) by {
        assert(r.entry[b] == taken.entry[b] && !taken.queued[b]);
        if b == bb {
            assert(b as usize == bb);
            assert(r.entry[b] == Some(held));
            assert(arrived(r, edges::leaving(program, at, depth, b as usize, held, budget, deeper)));
        } else {
            assert(!w.agenda.queued[b]);
            assert(block_covered(program, at, depth, w.agenda, b, deeper));
            match r.entry[b] {
                Some(own) => {
                    let left = choose|left: u32|
                        arrived(
                            w.agenda,
                            #[trigger] edges::leaving(
                                program,
                                at,
                                depth,
                                b as usize,
                                own,
                                left,
                                deeper,
                            ),
                        );
                    let before = edges::leaving(program, at, depth, b as usize, own, left, deeper);
                    assert(arrived(taken, before)) by {
                        assert forall|j: int| 0 <= j < before.len() implies received(
                            taken,
                            #[trigger] before[j],
                        ) by {
                            assert(received(w.agenda, before[j]));
                        }
                    }
                    growing_keeps_arrived(taken, r, before);
                },
                None => {},
            }
        }
    }
}

/// Visiting a block is delivering what it sends.
pub proof fn leaving_delivers(
    program: Program,
    at: usize,
    depth: u32,
    bb: usize,
    held: Seq<Fact>,
    w: Walk,
    marks: Seq<u128>,
    deeper: Deeper,
)
    ensures
        fold::visited(program, at, depth, bb, held, w, marks, deeper).agenda == edges::delivered(
            w.agenda,
            edges::leaving(program, at, depth, bb, held, w.budget, deeper),
            marks,
        ),
{
    reveal(fold::visited);
    let lens = Lens::of(program, program.functions@[at as int]);
    let block = lens.function.blocks@[bb as int];
    let opened = Walk { reached: w.reached.reopened(bb), ..w };
    match (
        lens.statements(held, block.statements@, block.statements@.len()),
        block.terminator,
    ) {
        (Some(next), Some(term)) => {
            let live = Walk {
                reached: fold::Reached {
                    live: fold::flagged(opened.reached.live, bb, true),
                    ..opened.reached
                },
                ..opened
            };
            edges::following_delivers(program, at, depth, bb, term, next, live, marks, deeper);
        },
        _ => {},
    }
}

/// Once nothing waits, what is held of the blocks that do not wait is held of
/// every block.
pub proof fn draining_closes(
    program: Program,
    at: usize,
    depth: u32,
    entry: Seq<Fact>,
    a: Agenda,
    deeper: Deeper,
)
    requires
        kept(program, at, depth, entry, a, deeper),
        a.queue.len() == 0,
    ensures
        closed_under_sending(program, at, depth, entry, a, deeper),
{
    assert forall|b: int| 0 <= b < a.entry.len() implies #[trigger] block_covered(
        program,
        at,
        depth,
        a,
        b,
        deeper,
    ) by {
        if a.queued[b] {
            assert(a.queue.contains(b as usize));
        }
    }
}

/// Where the entries are closed, each state that a block sends from its own
/// has an entry recorded where it goes, and whatever that state allows the
/// entry allows.
pub proof fn what_is_sent_is_allowed(
    program: Program,
    at: usize,
    depth: u32,
    entry: Seq<Fact>,
    a: Agenda,
    deeper: Deeper,
    b: int,
) -> (budget: u32)
    requires
        closed_under_sending(program, at, depth, entry, a, deeper),
        0 <= b < a.entry.len(),
        a.entry[b] is Some,
    ensures
        ({
            let sent = edges::leaving(
                program,
                at,
                depth,
                b as usize,
                a.entry[b]->Some_0,
                budget,
                deeper,
            );
            forall|j: int|
                0 <= j < sent.len() && (#[trigger] sent[j]).to < a.entry.len() ==> {
                    let there = a.entry[sent[j].to as int];
                    &&& there is Some
                    &&& there->Some_0.len() == sent[j].state.len()
                    &&& forall|i: int, k: Known, measure: spec_fn(Local) -> int|
                        0 <= i < sent[j].state.len() && k.wf() && sent[j].state[i].allows(
                            k,
                            measure,
                        ) ==> #[trigger] there->Some_0[i].allows(k, measure)
                }
        }),
{
    let held = a.entry[b]->Some_0;
    assert(block_covered(program, at, depth, a, b, deeper));
    let budget = choose|budget: u32|
        arrived(
            a,
            #[trigger] edges::leaving(program, at, depth, b as usize, held, budget, deeper),
        );
    let sent = edges::leaving(program, at, depth, b as usize, held, budget, deeper);
    assert forall|j: int| 0 <= j < sent.len() && (#[trigger] sent[j]).to < a.entry.len() implies {
        let there = a.entry[sent[j].to as int];
        &&& there is Some
        &&& there->Some_0.len() == sent[j].state.len()
        &&& forall|i: int, k: Known, measure: spec_fn(Local) -> int|
            0 <= i < sent[j].state.len() && k.wf() && sent[j].state[i].allows(k, measure)
                ==> #[trigger] there->Some_0[i].allows(k, measure)
    } by {
        assert(received(a, sent[j]));
        let there = a.entry[sent[j].to as int]->Some_0;
        assert forall|i: int, k: Known, measure: spec_fn(Local) -> int|
            0 <= i < sent[j].state.len() && k.wf() && sent[j].state[i].allows(
                k,
                measure,
            ) implies #[trigger] there[i].allows(k, measure) by {
            reveal(fact_covers);
            assert(fact_covers(there[i], sent[j].state[i]));
        }
    }
    budget
}

/// Where the entries are closed, no block sends anything to one that has no
/// entry recorded, and the body is not entered there.
pub proof fn an_unrecorded_block_is_sent_nothing(
    program: Program,
    at: usize,
    depth: u32,
    entry: Seq<Fact>,
    a: Agenda,
    deeper: Deeper,
    from: int,
    to: int,
) -> (budget: u32)
    requires
        closed_under_sending(program, at, depth, entry, a, deeper),
        0 <= from < a.entry.len(),
        0 <= to < a.entry.len(),
        a.entry[from] is Some,
        a.entry[to] is None,
    ensures
        to != 0,
        ({
            let sent = edges::leaving(
                program,
                at,
                depth,
                from as usize,
                a.entry[from]->Some_0,
                budget,
                deeper,
            );
            forall|j: int| 0 <= j < sent.len() ==> (#[trigger] sent[j]).to != to
        }),
{
    what_is_sent_is_allowed(program, at, depth, entry, a, deeper, from)
}

} // verus!
