//! How often what a walk records can change.
//!
//! A block's entry only becomes less definite, and past the first few arrivals
//! each change of a claim takes it a step towards claiming nothing. The height
//! of a fact counts the steps it has left, so the heights of all the facts
//! recorded count the visits a walk can still make.

use vstd::prelude::*;

use crate::cover;
use crate::edges;
use crate::edges::Sent;
use crate::fold;
use crate::fold::{Deeper, Walk};
use crate::mir::{Function, Program};
use crate::state;
use crate::state::Agenda;
use crate::value;
use crate::value::{Bounds, Claim, Fact, Known, LenRel, Rank, Ranks, Thresholds};

verus! {

/// A stop as a value of a type.
pub open spec fn stop_at(marks: Seq<u128>, j: int, like: Known) -> Known {
    Known { bits: marks[j], ..like }
}

/// How many of the first `n` stops lie below a value.
pub open spec fn stops_below(marks: Seq<u128>, end: Known, n: nat) -> nat
    decreases n,
{
    if n == 0 {
        0
    } else {
        let stop = stop_at(marks, n - 1, end);
        stops_below(marks, end, (n - 1) as nat) + (if stop.wf() && stop.val() < end.val() {
            1nat
        } else {
            0
        })
    }
}

/// How many of the first `n` stops lie above a value.
pub open spec fn stops_above(marks: Seq<u128>, end: Known, n: nat) -> nat
    decreases n,
{
    if n == 0 {
        0
    } else {
        let stop = stop_at(marks, n - 1, end);
        stops_above(marks, end, (n - 1) as nat) + (if stop.wf() && end.val() < stop.val() {
            1nat
        } else {
            0
        })
    }
}

/// How many steps the lower end of a range has left to the end of its type.
pub open spec fn steps_down(marks: Seq<u128>, end: Known) -> nat {
    stops_below(marks, end, marks.len()) + (if end.min_val() < end.val() {
        1nat
    } else {
        0
    })
}

/// How many steps the upper end of a range has left to the end of its type.
pub open spec fn steps_up(marks: Seq<u128>, end: Known) -> nat {
    stops_above(marks, end, marks.len()) + (if end.val() < end.max_val() {
        1nat
    } else {
        0
    })
}

/// How many steps a range has left: its two ends, and being given up.
pub open spec fn range_height(marks: Seq<u128>, range: Bounds) -> nat {
    2 + steps_down(marks, range.lo) + steps_up(marks, range.hi)
}

/// How many steps a claim has left.
pub open spec fn claim_height(marks: Seq<u128>, claim: Option<Claim>) -> nat {
    match claim {
        Some(Claim::Exact(known)) => 1 + range_height(marks, Bounds::single(known)),
        Some(Claim::Within(range)) => range_height(marks, range),
        Some(_) => 1,
        None => 0,
    }
}

/// How many steps an ordering has left.
pub open spec fn rank_height(rank: Option<Rank>) -> nat {
    match rank {
        Some(held) => match held.rel {
            LenRel::Below => 2,
            LenRel::AtMost => 1,
        },
        None => 0,
    }
}

/// One step where something is held.
pub open spec fn held_height<T>(held: Option<T>) -> nat {
    if held is Some {
        1
    } else {
        0
    }
}

/// How many steps a fact has left.
#[verifier::opaque]
pub open spec fn height(marks: Seq<u128>, fact: Fact) -> nat {
    claim_height(marks, fact.value) + (match fact.extent {
        Some(range) => range_height(marks, range),
        None => 0,
    }) + rank_height(fact.order.spec_first()) + rank_height(fact.order.spec_second()) + held_height(
        fact.same,
    ) + held_height(fact.paired) + held_height(fact.spans) + held_height(fact.over) + held_height(
        fact.tag,
    ) + (if fact.address {
        1nat
    } else {
        0
    })
}

/// How many steps a fact has at most, for so many stops.
pub open spec fn tallest(stops: nat) -> nat {
    4 * stops + 19
}

proof fn stops_are_so_many(marks: Seq<u128>, end: Known, n: nat)
    ensures
        stops_below(marks, end, n) <= n,
        stops_above(marks, end, n) <= n,
    decreases n,
{
    if n > 0 {
        stops_are_so_many(marks, end, (n - 1) as nat);
    }
}

/// No fact has more steps than that.
pub proof fn heights_are_bounded(marks: Seq<u128>, fact: Fact)
    ensures
        height(marks, fact) <= tallest(marks.len()),
{
    reveal(height);
    match fact.value {
        Some(Claim::Exact(known)) => {
            stops_are_so_many(marks, known, marks.len());
        },
        Some(Claim::Within(range)) => {
            stops_are_so_many(marks, range.lo, marks.len());
            stops_are_so_many(marks, range.hi, marks.len());
        },
        _ => {},
    }
    match fact.extent {
        Some(range) => {
            stops_are_so_many(marks, range.lo, marks.len());
            stops_are_so_many(marks, range.hi, marks.len());
        },
        None => {},
    }
}

/// Moving an end outward passes no stop that was not passed.
proof fn moving_outward(marks: Seq<u128>, was: Known, now: Known, n: nat)
    requires
        was.same(now),
    ensures
        now.val() <= was.val() ==> stops_below(marks, now, n) <= stops_below(marks, was, n),
        was.val() <= now.val() ==> stops_above(marks, now, n) <= stops_above(marks, was, n),
    decreases n,
{
    if n > 0 {
        moving_outward(marks, was, now, (n - 1) as nat);
        assert(stop_at(marks, n - 1, was) == stop_at(marks, n - 1, now));
    }
}

/// Moving an end onto a stop that lay beyond it uses that stop up.
proof fn moving_onto_a_stop(marks: Seq<u128>, was: Known, now: Known, j: nat, n: nat)
    requires
        was.same(now),
        j < n,
        now.wf(),
        now == stop_at(marks, j as int, was),
    ensures
        now.val() < was.val() ==> stops_below(marks, now, n) < stops_below(marks, was, n),
        was.val() < now.val() ==> stops_above(marks, now, n) < stops_above(marks, was, n),
    decreases n,
{
    assert(stop_at(marks, n - 1, was) == stop_at(marks, n - 1, now));
    if j == n - 1 {
        moving_outward(marks, was, now, (n - 1) as nat);
    } else {
        moving_onto_a_stop(marks, was, now, j, (n - 1) as nat);
    }
}

/// Where a widening step ends: at the end of the type, or on a stop.
proof fn where_steps_end(marks: Seq<u128>, now: Known, n: nat) -> (r: (Option<nat>, Option<nat>))
    requires
        now.wf(),
    ensures
        match r.0 {
            Some(j) => j < n && Thresholds::below(marks, now, n) == stop_at(marks, j as int, now),
            None => Thresholds::below(marks, now, n) == now.at(now.min_val()),
        },
        match r.1 {
            Some(j) => j < n && Thresholds::above(marks, now, n) == stop_at(marks, j as int, now),
            None => Thresholds::above(marks, now, n) == now.at(now.max_val()),
        },
    decreases n,
{
    if n == 0 {
        (None, None)
    } else {
        let before = where_steps_end(marks, now, (n - 1) as nat);
        let stop = stop_at(marks, n - 1, now);
        let low = Thresholds::below(marks, now, (n - 1) as nat);
        let high = Thresholds::above(marks, now, (n - 1) as nat);
        (
            if stop.wf() && stop.val() <= now.val() && low.val() < stop.val() {
                Some((n - 1) as nat)
            } else {
                before.0
            },
            if stop.wf() && now.val() <= stop.val() && stop.val() < high.val() {
                Some((n - 1) as nat)
            } else {
                before.1
            },
        )
    }
}

/// An end that moved and was widened has fewer steps left.
proof fn an_end_steps(marks: Seq<u128>, was: Known, now: Known)
    requires
        was.wf(),
        now.wf(),
        was.same(now),
    ensures
        now.val() < was.val() ==> steps_down(marks, Thresholds::below(marks, now, marks.len()))
            < steps_down(marks, was),
        was.val() < now.val() ==> steps_up(marks, Thresholds::above(marks, now, marks.len()))
            < steps_up(marks, was),
{
    let n = marks.len();
    let low = Thresholds::below(marks, now, n);
    let high = Thresholds::above(marks, now, n);
    value::stops_lie_outward(marks, now, n);
    was.stands();
    now.stands();
    now.placed(now.min_val());
    now.placed(now.max_val());
    let (down, up) = where_steps_end(marks, now, n);
    if now.val() < was.val() {
        moving_outward(marks, was, low, n);
        match down {
            Some(j) => {
                assert(stop_at(marks, j as int, now) == stop_at(marks, j as int, was));
                moving_onto_a_stop(marks, was, low, j, n);
            },
            None => {},
        }
    }
    if was.val() < now.val() {
        moving_outward(marks, was, high, n);
        match up {
            Some(j) => {
                assert(stop_at(marks, j as int, now) == stop_at(marks, j as int, was));
                moving_onto_a_stop(marks, was, high, j, n);
            },
            None => {},
        }
    }
}

/// A range that only grew has no more steps left.
proof fn growing_ranges(marks: Seq<u128>, was: Bounds, now: Bounds)
    requires
        was.wf(),
        now.wf(),
        was.lo.same(now.lo),
        now.lo.val() <= was.lo.val(),
        was.hi.val() <= now.hi.val(),
    ensures
        range_height(marks, now) <= range_height(marks, was),
{
    moving_outward(marks, was.lo, now.lo, marks.len());
    moving_outward(marks, was.hi, now.hi, marks.len());
}

/// A range that grew and was widened has fewer steps left.
proof fn widened_ranges(marks: Seq<u128>, was: Bounds, now: Bounds)
    requires
        was.wf(),
        now.wf(),
        was.lo.same(now.lo),
        now.lo.val() <= was.lo.val(),
        was.hi.val() <= now.hi.val(),
    ensures
        match Claim::Within(now).spec_widened(Claim::Within(was), marks) {
            Some(Claim::Within(wider)) => {
                &&& range_height(marks, wider) <= range_height(marks, was)
                &&& now != was ==> range_height(marks, wider) < range_height(marks, was)
            },
            _ => false,
        },
{
    an_end_steps(marks, was.lo, now.lo);
    an_end_steps(marks, was.hi, now.hi);
    if now.lo.val() == was.lo.val() {
        now.lo.told_apart(was.lo);
    }
    if now.hi.val() == was.hi.val() {
        now.hi.told_apart(was.hi);
    }
}

/// What joining leaves of a claim: the claim, or one with no more steps.
proof fn joined_claims(marks: Seq<u128>, held: Option<Claim>, arriving: Option<Claim>, next: Option<Claim>)
    requires
        held is Some ==> held->0.wf(),
        arriving is Some ==> arriving->0.wf(),
        next == (match (held, arriving) {
            (Some(a), Some(b)) => a.spec_join(b),
            _ => None,
        }),
    ensures
        claim_height(marks, next) <= claim_height(marks, held),
        ({
            let wider = match (next, held) {
                (Some(now), Some(was)) => now.spec_widened(was, marks),
                _ => None,
            };
            &&& claim_height(marks, wider) <= claim_height(marks, held)
            &&& next != held ==> claim_height(marks, wider) < claim_height(marks, held)
        }),
{
    match (held, arriving) {
        (Some(a), Some(b)) => {
            match (a.spec_bounds(), b.spec_bounds(), next) {
                (Some(was), Some(other), Some(Claim::Within(now))) => {
                    growing_ranges(marks, was, now);
                    widened_ranges(marks, was, now);
                },
                (Some(was), _, _) => {
                    widened_ranges(marks, was, was);
                },
                _ => {},
            }
        },
        _ => {},
    }
}

proof fn joined_extents(
    marks: Seq<u128>,
    held: Option<Bounds>,
    arriving: Option<Bounds>,
    next: Option<Bounds>,
)
    requires
        held is Some ==> held->0.wf(),
        arriving is Some ==> arriving->0.wf(),
        next == (match (held, arriving) {
            (Some(a), Some(b)) => a.spec_hull(b),
            _ => None,
        }),
    ensures
        ({
            let left = |range: Option<Bounds>|
                match range {
                    Some(range) => range_height(marks, range),
                    None => 0,
                };
            let wider = match (next, held) {
                (Some(now), Some(was)) => match Claim::Within(now).spec_widened(
                    Claim::Within(was),
                    marks,
                ) {
                    Some(wider) => wider.spec_bounds(),
                    None => None,
                },
                _ => None,
            };
            &&& left(next) <= left(held)
            &&& left(wider) <= left(held)
            &&& next != held ==> left(wider) < left(held)
        }),
{
    match (held, next) {
        (Some(was), Some(now)) => {
            growing_ranges(marks, was, now);
            widened_ranges(marks, was, now);
        },
        _ => {},
    }
}

proof fn joined_orders(held: Ranks, arriving: Ranks)
    ensures
        ({
            let next = held.spec_joined(arriving);
            let left = |order: Ranks|
                rank_height(order.spec_first()) + rank_height(order.spec_second());
            &&& left(next) <= left(held)
            &&& next != held ==> left(next) < left(held)
        }),
{
}

/// Where two states meet, a fact keeps its height or loses some of it, and one
/// that changes and is widened loses some.
pub proof fn meeting_steps(held: Fact, arriving: Fact, widen: bool, marks: Seq<u128>)
    requires
        held.wf(),
        arriving.wf(),
    ensures
        height(marks, state::met(held, arriving, widen, marks)) <= height(marks, held),
        widen && held.spec_joined(arriving) != held ==> height(
            marks,
            state::met(held, arriving, widen, marks),
        ) < height(marks, held),
{
    reveal(height);
    let next = held.spec_joined(arriving);
    joined_claims(marks, held.value, arriving.value, next.value);
    joined_extents(marks, held.extent, arriving.extent, next.extent);
    joined_orders(held.order, arriving.order);
}

/// How many steps the first `n` facts of a state have left.
pub open spec fn state_height(marks: Seq<u128>, held: Seq<Fact>, n: nat) -> nat
    decreases n,
{
    if n == 0 {
        0
    } else {
        state_height(marks, held, (n - 1) as nat) + height(marks, held[n - 1])
    }
}

/// How often a block's entry can still change, for states of so many slots.
pub open spec fn block_height(marks: Seq<u128>, a: Agenda, b: int, slots: nat) -> nat {
    match a.entry[b] {
        Some(held) => state_height(marks, held, slots) + (if a.changes[b] < state::PRECISE {
            (state::PRECISE - a.changes[b]) as nat
        } else {
            0
        }),
        None => slots * tallest(marks.len()) + state::PRECISE as nat + 1,
    }
}

/// How often the entries of the first `n` blocks can still change.
pub open spec fn entries_height(marks: Seq<u128>, a: Agenda, slots: nat, n: nat) -> nat
    decreases n,
{
    if n == 0 {
        0
    } else {
        entries_height(marks, a, slots, (n - 1) as nat) + block_height(marks, a, n - 1, slots)
    }
}

/// How many visits an agenda can still ask for.
pub open spec fn visits_left(marks: Seq<u128>, a: Agenda, slots: nat) -> nat {
    entries_height(marks, a, slots, a.entry.len()) + a.queue.len()
}

/// How many visits a walk of so many blocks, slots and stops can ask for.
pub open spec fn visits(blocks: nat, slots: nat, stops: nat) -> nat {
    blocks * (slots * tallest(stops) + state::PRECISE as nat + 1) + 1
}

proof fn states_are_bounded(marks: Seq<u128>, held: Seq<Fact>, n: nat)
    ensures
        state_height(marks, held, n) <= n * tallest(marks.len()),
    decreases n,
{
    let top = tallest(marks.len());
    if n > 0 {
        states_are_bounded(marks, held, (n - 1) as nat);
        heights_are_bounded(marks, held[n - 1]);
        assert(n * top == (n - 1) * top + top) by (nonlinear_arith)
            requires
                n > 0,
        ;
    } else {
        assert(n * top == 0) by (nonlinear_arith)
            requires
                n == 0,
        ;
    }
}

proof fn meeting_states_steps(
    marks: Seq<u128>,
    held: Seq<Fact>,
    arriving: Seq<Fact>,
    widen: bool,
    n: nat,
)
    requires
        held.len() == arriving.len(),
        n <= held.len(),
        state::sound(held),
        state::sound(arriving),
    ensures
        ({
            let next = state::meeting(held, arriving, widen, marks);
            &&& state_height(marks, next, n) <= state_height(marks, held, n)
            &&& widen && (exists|i: int| 0 <= i < n && #[trigger] state::stirs_at(held, arriving, i))
                ==> state_height(marks, next, n) < state_height(marks, held, n)
        }),
    decreases n,
{
    if n > 0 {
        meeting_states_steps(marks, held, arriving, widen, (n - 1) as nat);
        assert(held[n - 1].wf() && arriving[n - 1].wf());
        meeting_steps(held[n - 1], arriving[n - 1], widen, marks);
        if exists|i: int| 0 <= i < n && #[trigger] state::stirs_at(held, arriving, i) {
            let i = choose|i: int| 0 <= i < n && #[trigger] state::stirs_at(held, arriving, i);
            if i < n - 1 {
                assert(state::stirs_at(held, arriving, i));
            }
        }
    }
}

/// Replacing one block's entry changes what is left by what that block has.
proof fn replacing_one(marks: Seq<u128>, a: Agenda, b: Agenda, bb: int, slots: nat, n: nat)
    requires
        forall|k: int|
            0 <= k < n && k != bb ==> (#[trigger] b.entry[k]) == a.entry[k] && b.changes[k]
                == a.changes[k],
    ensures
        0 <= bb < n ==> entries_height(marks, b, slots, n) + block_height(marks, a, bb, slots)
            == entries_height(marks, a, slots, n) + block_height(marks, b, bb, slots),
        !(0 <= bb < n) ==> entries_height(marks, b, slots, n) == entries_height(marks, a, slots, n),
    decreases n,
{
    if n > 0 {
        replacing_one(marks, a, b, bb, slots, (n - 1) as nat);
        if n - 1 != bb {
            assert(b.entry[n - 1] == a.entry[n - 1]);
        }
    }
}

/// A state that arrives asks for no visit that is not paid for by a step.
pub proof fn arriving_spends(a: Agenda, one: Sent, marks: Seq<u128>, slots: nat)
    requires
        a.wf(),
        cover::entries_long(a, slots),
        state::sound(one.state),
        one.state.len() == slots,
    ensures
        visits_left(marks, a.merged(one.to, one.state, marks), slots) <= visits_left(
            marks,
            a,
            slots,
        ),
{
    let b = a.merged(one.to, one.state, marks);
    let bb = one.to as int;
    if bb < a.entry.len() && b != a {
        replacing_one(marks, a, b, bb, slots, a.entry.len());
        match a.entry[bb] {
            None => {
                states_are_bounded(marks, one.state, slots);
                assert(b.entry[bb] == Some(one.state));
            },
            Some(held) => {
                assert(state::stirs(held, one.state));
                assert(state::sound(held) && held.len() == slots);
                let widen = a.changes[bb] >= state::PRECISE;
                meeting_states_steps(marks, held, one.state, widen, slots);
                let i = choose|i: int| #[trigger] state::stirs_at(held, one.state, i);
                assert(0 <= i < slots && state::stirs_at(held, one.state, i));
                assert(b.entry[bb] == Some(state::meeting(held, one.state, widen, marks)));
            },
        }
    }
}

proof fn delivering_spends(a: Agenda, sent: Seq<Sent>, marks: Seq<u128>, slots: nat)
    requires
        a.wf(),
        cover::entries_long(a, slots),
        edges::all_sound(sent),
        edges::all_long(sent, slots),
    ensures
        visits_left(marks, edges::delivered(a, sent, marks), slots) <= visits_left(
            marks,
            a,
            slots,
        ),
    decreases sent.len(),
{
    if sent.len() > 0 {
        let rest = sent.drop_last();
        assert forall|j: int| 0 <= j < rest.len() implies state::sound((#[trigger] rest[j]).state)
            && rest[j].state.len() == slots by {
            assert(rest[j] == sent[j]);
        }
        delivering_spends(a, rest, marks, slots);
        cover::delivering_covers(a, rest, marks, slots);
        assert(sent.last() == sent[sent.len() - 1]);
        arriving_spends(edges::delivered(a, rest, marks), sent.last(), marks, slots);
    }
}

/// A visit leaves one visit fewer to ask for, where what the block sends is
/// sound.
pub proof fn visiting_spends(
    program: Program,
    at: usize,
    depth: u32,
    entry: Seq<Fact>,
    w: Walk,
    marks: Seq<u128>,
    deeper: Deeper,
)
    requires
        w.agenda.queue.len() > 0,
        w.budget > 0,
        cover::kept(program, at, depth, entry, w.agenda, deeper),
        edges::all_sound(
            edges::leaving(
                program,
                at,
                depth,
                w.agenda.queue[0],
                w.agenda.entry[w.agenda.queue[0] as int]->Some_0,
                (w.budget - 1) as u32,
                deeper,
            ),
        ),
    ensures
        visits_left(
            marks,
            fold::visited(
                program,
                at,
                depth,
                w.agenda.queue[0],
                w.agenda.entry[w.agenda.queue[0] as int]->Some_0,
                Walk { agenda: w.agenda.taken(), budget: (w.budget - 1) as u32, ..w },
                marks,
                deeper,
            ).agenda,
            entry.len(),
        ) < visits_left(marks, w.agenda, entry.len()),
{
    let bb = w.agenda.queue[0];
    let held = w.agenda.entry[bb as int]->Some_0;
    let budget = (w.budget - 1) as u32;
    let taken = w.agenda.taken();
    let walk = Walk { agenda: taken, budget, ..w };
    let sent = edges::leaving(program, at, depth, bb, held, budget, deeper);
    assert(taken.wf()) by {
        assert forall|k: int| 0 <= k < taken.queue.len() implies (#[trigger] taken.queue[k])
            < taken.entry.len() && taken.entry[taken.queue[k] as int] is Some by {
            assert(taken.queue[k] == w.agenda.queue[k + 1]);
        }
    }
    replacing_one(marks, w.agenda, taken, -1, entry.len(), taken.entry.len());
    cover::leaving_delivers(program, at, depth, bb, held, walk, marks, deeper);
    edges::leaving_keeps_length(program, at, depth, bb, held, budget, deeper);
    delivering_spends(taken, sent, marks, entry.len());
}

proof fn fresh_entries(marks: Seq<u128>, blocks: nat, slots: nat, n: nat)
    requires
        n <= blocks,
    ensures
        entries_height(marks, Agenda::fresh(blocks), slots, n) == n * (slots * tallest(marks.len())
            + state::PRECISE as nat + 1),
    decreases n,
{
    let each = slots * tallest(marks.len()) + state::PRECISE as nat + 1;
    if n > 0 {
        fresh_entries(marks, blocks, slots, (n - 1) as nat);
        assert(n * each == (n - 1) * each + each) by (nonlinear_arith)
            requires
                n > 0,
        ;
    } else {
        assert(n * each == 0) by (nonlinear_arith)
            requires
                n == 0,
        ;
    }
}

/// A walk begins with so many visits to ask for at most.
pub proof fn beginning_is_bounded(function: Function, budget: u32, entry: Seq<Fact>)
    requires
        state::sound(entry),
    ensures
        visits_left(
            fold::spec_stops(function),
            fold::begun(function, budget, entry).agenda,
            entry.len(),
        ) <= visits(function.blocks@.len(), entry.len(), fold::spec_stops(function).len()),
{
    let marks = fold::spec_stops(function);
    let blocks = function.blocks@.len();
    let fresh = Agenda::fresh(blocks);
    fresh_entries(marks, blocks, entry.len(), blocks);
    arriving_spends(fresh, Sent { to: 0, state: entry }, marks, entry.len());
}

} // verus!
