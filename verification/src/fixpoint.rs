//! What a walk's verdicts rest on once it has ended.
//!
//! A block is visited again whenever its entry becomes less definite, so a
//! verdict drawn early says nothing by itself. What is shown here is that the
//! verdicts a walk ends with are those of the entries it ends with.

use vstd::prelude::*;

use crate::edges;
use crate::edges::Sent;
use crate::fold;
use crate::fold::{Deeper, Walk};
use crate::mir::{Assert, Program, Terminator};
use crate::read::Lens;
use crate::state;
use crate::state::Agenda;
use crate::value;
use crate::value::Fact;

verus! {

/// Whether one agenda comes of another by arrivals alone: a block's entry
/// changes only where it is made to wait.
pub open spec fn follows(a: Agenda, b: Agenda) -> bool {
    &&& b.entry.len() == a.entry.len()
    &&& b.queued.len() == b.entry.len()
    &&& a.queued.len() == a.entry.len()
    &&& forall|k: int|
        0 <= k < a.entry.len() ==> #[trigger] b.queued[k] || (b.entry[k] == a.entry[k]
            && !a.queued[k])
    &&& (all_waiting(a) ==> all_waiting(b))
    &&& (waiting_recorded(a) ==> waiting_recorded(b))
}

/// Whether every block marked as waiting is among those to visit.
pub open spec fn all_waiting(a: Agenda) -> bool {
    forall|k: int| 0 <= k < a.queued.len() && #[trigger] a.queued[k] ==> a.queue.contains(k as usize)
}

proof fn staying_follows(a: Agenda)
    requires
        a.queued.len() == a.entry.len(),
    ensures
        follows(a, a),
{
}

proof fn following_chains(a: Agenda, b: Agenda, c: Agenda)
    requires
        follows(a, b),
        follows(b, c),
    ensures
        follows(a, c),
{
    assert forall|k: int| 0 <= k < a.entry.len() implies #[trigger] c.queued[k] || (c.entry[k]
        == a.entry[k] && !a.queued[k]) by {
        let _ = b.queued[k];
    }
}

/// An arrival changes only the entry of a block it makes wait.
pub proof fn arriving_follows(a: Agenda, bb: usize, incoming: Seq<Fact>, marks: Seq<u128>)
    requires
        a.queued.len() == a.entry.len(),
    ensures
        follows(a, a.merged(bb, incoming, marks)),
{
    let b = a.merged(bb, incoming, marks);
    if waiting_recorded(a) {
        assert forall|k: int| 0 <= k < b.queue.len() implies (#[trigger] b.queue[k])
            < b.entry.len() && b.entry[b.queue[k] as int] is Some by {
            if k < a.queue.len() {
                assert(b.queue[k] == a.queue[k]);
            }
        }
    }
    if all_waiting(a) {
        assert forall|k: int| 0 <= k < b.queued.len() && #[trigger] b.queued[k] implies b.queue.contains(
            k as usize,
        ) by {
            if k == bb && b != a && !a.queued[k] {
                assert(b.queue[a.queue.len() as int] == bb);
            } else {
                assert(a.queued[k]);
                let i = choose|i: int| 0 <= i < a.queue.len() && a.queue[i] == k as usize;
                assert(b.queue[i] == k as usize);
            }
        }
    }
}

/// And so do any number of them.
pub proof fn delivering_follows(a: Agenda, sent: Seq<Sent>, marks: Seq<u128>)
    requires
        a.queued.len() == a.entry.len(),
    ensures
        follows(a, edges::delivered(a, sent, marks)),
    decreases sent.len(),
{
    if sent.len() == 0 {
        staying_follows(a);
    } else {
        delivering_follows(a, sent.drop_last(), marks);
        let before = edges::delivered(a, sent.drop_last(), marks);
        arriving_follows(before, sent.last().to, sent.last().state, marks);
        following_chains(a, before, edges::delivered(a, sent, marks));
    }
}

/// Whether a check holds in a state.
pub open spec fn check_holds(lens: Lens, check: Assert, state: Seq<Fact>) -> bool {
    match value::spec_pinned(lens.fact(state, check.cond)) {
        Some(known) => (known.bits != 0) == check.expected,
        None => false,
    }
}

proof fn spreading_keeps_verdicts(
    w: Walk,
    blocks: Seq<usize>,
    state: Seq<Fact>,
    marks: Seq<u128>,
    n: nat,
)
    ensures
        w.spread(blocks, state, marks, n).reached == w.reached,
    decreases n,
{
    if n > 0 {
        spreading_keeps_verdicts(w, blocks, state, marks, (n - 1) as nat);
    }
}

/// What following a terminator leaves of the agenda and of the verdicts.
proof fn ending_follows(
    program: Program,
    at: usize,
    depth: u32,
    bb: usize,
    term: Terminator,
    state: Seq<Fact>,
    w: Walk,
    marks: Seq<u128>,
    deeper: Deeper,
)
    requires
        w.agenda.queued.len() == w.agenda.entry.len(),
    ensures
        ({
            let lens = Lens::of(program, program.functions@[at as int]);
            let r = fold::ended(program, at, depth, bb, term, state, w, marks, deeper);
            &&& follows(w.agenda, r.agenda)
            &&& r.reached.live == w.reached.live
            &&& r.reached.settled == (match term {
                Terminator::Assert(check) => if check_holds(lens, check, state) {
                    fold::flagged(w.reached.settled, bb, true)
                } else {
                    w.reached.settled
                },
                _ => w.reached.settled,
            })
        }),
{
    edges::following_delivers(program, at, depth, bb, term, state, w, marks, deeper);
    delivering_follows(
        w.agenda,
        edges::sends(program, at, depth, bb, term, state, w.budget, deeper),
        marks,
    );
    reveal(fold::ended);
    match term {
        Terminator::Call(call) => {
            reveal(fold::called);
        },
        Terminator::Yield(blocks) => {
            spreading_keeps_verdicts(
                w,
                blocks@,
                state::spec_blank(state.len()),
                marks,
                blocks@.len(),
            );
        },
        Terminator::Assembly(blocks, _) => {
            spreading_keeps_verdicts(
                w,
                blocks@,
                state::spec_blank(state.len()),
                marks,
                blocks@.len(),
            );
        },
        _ => {},
    }
}

/// Whether a block's check holds wherever the block is entered as recorded.
pub open spec fn proves(lens: Lens, b: int, entry: Option<Seq<Fact>>) -> bool {
    let block = lens.function.blocks@[b];
    match (entry, block.terminator) {
        (Some(held), Some(Terminator::Assert(check))) => match lens.statements(
            held,
            block.statements@,
            block.statements@.len(),
        ) {
            Some(end) => check_holds(lens, check, end),
            None => false,
        },
        _ => false,
    }
}

/// Whether a block is never run to its end, entered as recorded.
pub open spec fn stops_short(lens: Lens, b: int, entry: Option<Seq<Fact>>) -> bool {
    let block = lens.function.blocks@[b];
    match entry {
        Some(held) => lens.statements(held, block.statements@, block.statements@.len()) is None,
        None => true,
    }
}

/// Whether the verdicts on the blocks that do not wait are those of their
/// entries.
pub open spec fn verdicts_current(lens: Lens, w: Walk) -> bool {
    &&& w.agenda.queued.len() == w.agenda.entry.len()
    &&& w.agenda.entry.len() == lens.function.blocks@.len()
    &&& w.agenda.entry.len() <= usize::MAX
    &&& w.reached.settled.len() == w.agenda.entry.len()
    &&& w.reached.live.len() == w.agenda.entry.len()
    &&& all_waiting(w.agenda)
    &&& forall|k: int|
        0 <= k < w.agenda.entry.len() && !#[trigger] w.agenda.queued[k] ==> {
            &&& w.reached.settled[k] ==> proves(lens, k, w.agenda.entry[k])
            &&& !w.reached.live[k] ==> stops_short(lens, k, w.agenda.entry[k])
            &&& w.reached.live[k] ==> w.agenda.entry[k] is Some
        }
}

/// Taking the first block that waits leaves the others waiting.
pub proof fn taking_keeps_waiting(a: Agenda)
    requires
        a.queue.len() > 0,
        a.queued.len() == a.entry.len(),
        a.entry.len() <= usize::MAX,
        all_waiting(a),
        waiting_recorded(a),
    ensures
        all_waiting(a.taken()),
        waiting_recorded(a.taken()),
{
    let taken = a.taken();
    assert forall|k: int| 0 <= k < taken.queued.len() && #[trigger] taken.queued[k] implies taken.queue.contains(
        k as usize,
    ) by {
        assert(a.queued[k]);
        let i = choose|i: int| 0 <= i < a.queue.len() && a.queue[i] == k as usize;
        assert(i > 0);
        assert(taken.queue[i - 1] == k as usize);
    }
    assert forall|k: int| 0 <= k < taken.queue.len() implies (#[trigger] taken.queue[k])
        < taken.entry.len() && taken.entry[taken.queue[k] as int] is Some by {
        assert(taken.queue[k] == a.queue[k + 1]);
    }
}

proof fn visiting_keeps_current(
    program: Program,
    at: usize,
    depth: u32,
    w: Walk,
    marks: Seq<u128>,
    deeper: Deeper,
)
    requires
        w.agenda.queue.len() > 0,
        w.budget > 0,
        w.agenda.queue[0] < w.agenda.entry.len(),
        w.agenda.entry[w.agenda.queue[0] as int] is Some,
        verdicts_current(Lens::of(program, program.functions@[at as int]), w),
        waiting_recorded(w.agenda),
    ensures
        ({
            let r = fold::visited(
                program,
                at,
                depth,
                w.agenda.queue[0],
                w.agenda.entry[w.agenda.queue[0] as int]->Some_0,
                Walk { agenda: w.agenda.taken(), budget: (w.budget - 1) as u32, ..w },
                marks,
                deeper,
            );
            &&& verdicts_current(Lens::of(program, program.functions@[at as int]), r)
            &&& waiting_recorded(r.agenda)
        }),
{
    reveal(fold::visited);
    let lens = Lens::of(program, program.functions@[at as int]);
    let bb = w.agenda.queue[0];
    let held = w.agenda.entry[bb as int]->Some_0;
    let block = lens.function.blocks@[bb as int];
    let taken = Walk { agenda: w.agenda.taken(), budget: (w.budget - 1) as u32, ..w };
    let opened = Walk { reached: taken.reached.reopened(bb), ..taken };
    let r = fold::visited(program, at, depth, bb, held, taken, marks, deeper);
    taking_keeps_waiting(w.agenda);
    match lens.statements(held, block.statements@, block.statements@.len()) {
        None => {
            assert forall|k: int| 0 <= k < r.agenda.entry.len() && !#[trigger] r.agenda.queued[k] implies {
                &&& r.reached.settled[k] ==> proves(lens, k, r.agenda.entry[k])
                &&& !r.reached.live[k] ==> stops_short(lens, k, r.agenda.entry[k])
                &&& r.reached.live[k] ==> r.agenda.entry[k] is Some
            } by {
                if k != bb {
                    assert(!w.agenda.queued[k]);
                }
            }
        },
        Some(next) => {
            let live = Walk {
                reached: fold::Reached {
                    live: fold::flagged(opened.reached.live, bb, true),
                    ..opened.reached
                },
                ..opened
            };
            staying_follows(live.agenda);
            match block.terminator {
                Some(term) => {
                    ending_follows(program, at, depth, bb, term, next, live, marks, deeper);
                },
                None => {},
            }
            assert(follows(live.agenda, r.agenda));
            assert forall|k: int| 0 <= k < r.agenda.entry.len() && !#[trigger] r.agenda.queued[k] implies {
                &&& r.reached.settled[k] ==> proves(lens, k, r.agenda.entry[k])
                &&& !r.reached.live[k] ==> stops_short(lens, k, r.agenda.entry[k])
                &&& r.reached.live[k] ==> r.agenda.entry[k] is Some
            } by {
                assert(r.agenda.entry[k] == live.agenda.entry[k] && !live.agenda.queued[k]);
                if k != bb {
                    assert(!w.agenda.queued[k]);
                }
            }
        },
    }
}

/// What waits is recorded.
pub open spec fn waiting_recorded(a: Agenda) -> bool {
    forall|k: int|
        0 <= k < a.queue.len() ==> (#[trigger] a.queue[k]) < a.entry.len()
            && a.entry[a.queue[k] as int] is Some
}

proof fn walking_keeps_current(
    program: Program,
    at: usize,
    depth: u32,
    w: Walk,
    n: nat,
    deeper: Deeper,
    b: int,
)
    requires
        verdicts_current(Lens::of(program, program.functions@[at as int]), w),
        waiting_recorded(w.agenda),
        0 <= b < program.functions@[at as int].blocks@.len(),
    ensures
        ({
            let lens = Lens::of(program, program.functions@[at as int]);
            let r = fold::walked(program, at, depth, w, n, deeper);
            &&& fold::flag(r.reached.settled, b as usize, false) ==> proves(
                lens,
                b,
                r.agenda.entry[b],
            )
            &&& !fold::flag(r.reached.live, b as usize, true) ==> stops_short(
                lens,
                b,
                r.agenda.entry[b],
            )
            &&& r.reached != fold::Reached::everything(
                program.functions@[at as int].blocks@.len(),
            ) && fold::flag(r.reached.live, b as usize, true) ==> r.agenda.entry[b] is Some
        }),
    decreases n,
{
    let lens = Lens::of(program, program.functions@[at as int]);
    if n > 0 && w.agenda.queue.len() > 0 && w.budget > 0 {
        let bb = w.agenda.queue[0];
        let marks = fold::spec_stops(program.functions@[at as int]);
        let taken = Walk { agenda: w.agenda.taken(), budget: (w.budget - 1) as u32, ..w };
        let next = fold::visited(
            program,
            at,
            depth,
            bb,
            w.agenda.entry[bb as int]->Some_0,
            taken,
            marks,
            deeper,
        );
        visiting_keeps_current(program, at, depth, w, marks, deeper);
        walking_keeps_current(program, at, depth, next, (n - 1) as nat, deeper, b);
    } else if n > 0 && w.agenda.queue.len() == 0 {
        if w.agenda.queued[b] {
            assert(w.agenda.queue.contains(b as usize));
        }
    }
}

/// A check is settled only where it cannot fail: the block's final entry, run
/// through the block, settles the condition to what the check expects.
pub proof fn settled_checks_hold(
    program: Program,
    at: usize,
    depth: u32,
    budget: u32,
    entry: Seq<Fact>,
    b: int,
)
    requires
        0 <= b < program.functions@[at as int].blocks@.len(),
        program.functions@[at as int].blocks@.len() <= usize::MAX,
        fold::flag(
            fold::ran(program, at, depth, budget, entry).reached.settled,
            b as usize,
            false,
        ),
    ensures
        proves(
            Lens::of(program, program.functions@[at as int]),
            b,
            fold::ran(program, at, depth, budget, entry).agenda.entry[b],
        ),
{
    ran_current(program, at, depth, budget, entry, b);
}

/// A block is dropped only where nothing runs it: no entry was ever recorded
/// for it, or its final entry contradicts an assumption it makes. That a
/// block with no entry recorded is sent nothing is
/// [`crate::cover::an_unrecorded_block_is_sent_nothing`].
pub proof fn dead_blocks_do_not_run(
    program: Program,
    at: usize,
    depth: u32,
    budget: u32,
    entry: Seq<Fact>,
    b: int,
)
    requires
        0 <= b < program.functions@[at as int].blocks@.len(),
        program.functions@[at as int].blocks@.len() <= usize::MAX,
        !fold::flag(
            fold::ran(program, at, depth, budget, entry).reached.live,
            b as usize,
            true,
        ),
    ensures
        stops_short(
            Lens::of(program, program.functions@[at as int]),
            b,
            fold::ran(program, at, depth, budget, entry).agenda.entry[b],
        ),
{
    ran_current(program, at, depth, budget, entry, b);
}

/// A walk that claims anything takes a block to run only where it recorded
/// what the block is entered with.
pub proof fn live_blocks_are_recorded(
    program: Program,
    at: usize,
    depth: u32,
    budget: u32,
    entry: Seq<Fact>,
    b: int,
)
    requires
        0 <= b < program.functions@[at as int].blocks@.len(),
        program.functions@[at as int].blocks@.len() <= usize::MAX,
        fold::ran(program, at, depth, budget, entry).reached != fold::Reached::everything(
            program.functions@[at as int].blocks@.len(),
        ),
        fold::flag(
            fold::ran(program, at, depth, budget, entry).reached.live,
            b as usize,
            true,
        ),
    ensures
        fold::ran(program, at, depth, budget, entry).agenda.entry[b] is Some,
{
    ran_current(program, at, depth, budget, entry, b);
}

proof fn ran_current(
    program: Program,
    at: usize,
    depth: u32,
    budget: u32,
    entry: Seq<Fact>,
    b: int,
)
    requires
        0 <= b < program.functions@[at as int].blocks@.len(),
        program.functions@[at as int].blocks@.len() <= usize::MAX,
    ensures
        ({
            let lens = Lens::of(program, program.functions@[at as int]);
            let r = fold::ran(program, at, depth, budget, entry);
            &&& fold::flag(r.reached.settled, b as usize, false) ==> proves(
                lens,
                b,
                r.agenda.entry[b],
            )
            &&& !fold::flag(r.reached.live, b as usize, true) ==> stops_short(
                lens,
                b,
                r.agenda.entry[b],
            )
            &&& r.reached != fold::Reached::everything(
                program.functions@[at as int].blocks@.len(),
            ) && fold::flag(r.reached.live, b as usize, true) ==> r.agenda.entry[b] is Some
        }),
{
    let function = program.functions@[at as int];
    let lens = Lens::of(program, function);
    let w = fold::begun(function, budget, entry);
    let fresh = Agenda::fresh(function.blocks@.len());
    arriving_follows(fresh, 0, entry, fold::spec_stops(function));
    assert(verdicts_current(lens, w)) by {
        assert forall|k: int| 0 <= k < w.agenda.entry.len() && !#[trigger] w.agenda.queued[k] implies {
            &&& w.reached.settled[k] ==> proves(lens, k, w.agenda.entry[k])
            &&& !w.reached.live[k] ==> stops_short(lens, k, w.agenda.entry[k])
            &&& w.reached.live[k] ==> w.agenda.entry[k] is Some
        } by {
            assert(w.agenda.entry[k] == fresh.entry[k]);
        }
    }
    walking_keeps_current(
        program,
        at,
        depth,
        w,
        fold::spec_bound(function.blocks@.len(), lens.slots()),
        fold::below(program, depth),
        b,
    );
}

proof fn stopping_gives_up(program: Program, at: usize, depth: u32, w: Walk, n: nat, deeper: Deeper)
    ensures
        ({
            let r = fold::walked(program, at, depth, w, n, deeper);
            r.agenda.queue.len() > 0 ==> r == r.given_up(program.functions@[at as int].blocks@.len())
        }),
    decreases n,
{
    if n > 0 && w.agenda.queue.len() > 0 && w.budget > 0 {
        let bb = w.agenda.queue[0];
        let next = fold::visited(
            program,
            at,
            depth,
            bb,
            w.agenda.entry[bb as int]->Some_0,
            Walk { agenda: w.agenda.taken(), budget: (w.budget - 1) as u32, ..w },
            fold::spec_stops(program.functions@[at as int]),
            deeper,
        );
        stopping_gives_up(program, at, depth, next, (n - 1) as nat, deeper);
    }
}

/// A walk that ends with blocks still to visit claims nothing: every block is
/// taken to run, no check to be settled, and the body to return anything.
pub proof fn a_walk_cut_short_claims_nothing(
    program: Program,
    at: usize,
    depth: u32,
    budget: u32,
    entry: Seq<Fact>,
)
    requires
        fold::ran(program, at, depth, budget, entry).agenda.queue.len() > 0,
    ensures
        ({
            let r = fold::ran(program, at, depth, budget, entry);
            &&& r.reached == fold::Reached::everything(program.functions@[at as int].blocks@.len())
            &&& r.returns is Anything
            &&& r.returned.len() == 0
        }),
{
    let function = program.functions@[at as int];
    stopping_gives_up(
        program,
        at,
        depth,
        fold::begun(function, budget, entry),
        fold::spec_bound(function.blocks@.len(), Lens::of(program, function).slots()),
        fold::below(program, depth),
    );
}

/// A walk with nothing to spend claims nothing: every block is taken to run,
/// and no check to be settled.
pub proof fn an_unpaid_walk_claims_nothing(
    program: Program,
    at: usize,
    depth: u32,
    entry: Seq<Fact>,
)
    ensures
        fold::ran(program, at, depth, 0, entry).reached == fold::Reached::everything(
            program.functions@[at as int].blocks@.len(),
        ),
{
    let blocks = program.functions@[at as int].blocks@.len();
    assert(fold::Reached::nothing(0) =~= fold::Reached::everything(0));
}

} // verus!
