//! Constant folding of the branches a build cannot take.
//!
//! A body is generic. The standard library keeps one per function, so a
//! check written against `size_of::<T>()` is still a live branch there even
//! though it settles to a constant for every real `T`. Codegen resolves it
//! per instantiation and never emits the failing arm; an analysis that walks
//! the arm anyway reports a panic no binary contains.
//!
//! This pass answers the same two questions codegen does, for one body at a
//! time: which blocks does this instantiation reach, and which of its checks
//! cannot fail. It only ever claims a value it can prove, so a body it
//! cannot follow is left exactly as it was found.
//!
//! A value the body did not compute itself is followed as far as it goes.
//! Where two arms of a branch meet, what they agree on survives as a range
//! rather than being given up, and a call is read for what its body returns,
//! so `right.max(1)` is known nonzero and the division below it raises
//! nothing.

use vstd::prelude::*;

use crate::cover;
use crate::edges;
use crate::height;
use crate::mir;
use crate::mir::{
    Assert, Block, Call, Function, Operand, Place, Program, Rvalue, Statement, Terminator, Unwind,
};
use crate::places;
use crate::places::{sweep_aliased, Path};
use crate::read;
use crate::read::{known_at, measuring, Lens, Scope};
use crate::state;
use crate::state::{copied, record, refined, unwind_to, Agenda, State, Work};
use crate::summary;
use crate::summary::{abroad, Found, Left, Returns};
use crate::value;
use crate::value::{BinOp, Fact, Local, Thresholds};

verus! {

/// What one instantiation of a body reaches.
#[derive(Debug)]
pub struct Reach {
    live: Vec<bool>,
    settled: Vec<bool>,
    quiet: Vec<bool>,
    failing: Vec<bool>,
}

/// What a [`Reach`] says of each block.
#[verifier::ext_equal]
pub struct Reached {
    /// Whether the compiler will generate code for it.
    pub live: Seq<bool>,
    /// Whether its check was proved unable to fail.
    pub settled: Seq<bool>,
    /// Whether its call was proved to raise nothing.
    pub quiet: Seq<bool>,
    /// Whether its check was proved to fail every time.
    pub failing: Seq<bool>,
}

/// As many flags as there are blocks, all of one value.
pub open spec fn flags(blocks: nat, set: bool) -> Seq<bool> {
    Seq::new(blocks, |i: int| set)
}

/// Some flags with one of them set to a value, if there is such a one.
pub open spec fn flagged(flags: Seq<bool>, at: usize, set: bool) -> Seq<bool> {
    if at < flags.len() {
        flags.update(at as int, set)
    } else {
        flags
    }
}

/// One of some flags, or what is said where there is no such one.
pub open spec fn flag(flags: Seq<bool>, at: usize, missing: bool) -> bool {
    if at < flags.len() {
        flags[at as int]
    } else {
        missing
    }
}

fn filled_flags(blocks: usize, set: bool) -> (r: Vec<bool>)
    ensures
        r@ == flags(blocks as nat, set),
{
    let mut out: Vec<bool> = Vec::new();
    let mut i: usize = 0;
    while i < blocks
        invariant
            i <= blocks,
            out@ == flags(i as nat, set),
        decreases blocks - i,
    {
        out.push(set);
        i += 1;
        assert(out@ =~= flags(i as nat, set));
    }
    out
}

fn set_flag(flags: &mut Vec<bool>, at: usize, set: bool)
    ensures
        final(flags)@ == flagged(old(flags)@, at, set),
{
    if at < flags.len() {
        flags.set(at, set);
    }
}

fn get_flag(flags: &Vec<bool>, at: usize, missing: bool) -> (r: bool)
    ensures
        r == flag(flags@, at, missing),
{
    if at < flags.len() {
        flags[at]
    } else {
        missing
    }
}

impl View for Reach {
    type V = Reached;

    closed spec fn view(&self) -> Reached {
        Reached {
            live: self.live@,
            settled: self.settled@,
            quiet: self.quiet@,
            failing: self.failing@,
        }
    }
}

impl Reached {
    /// What a walk that has visited nothing says.
    pub open spec fn nothing(blocks: nat) -> Reached {
        Reached {
            live: flags(blocks, false),
            settled: flags(blocks, false),
            quiet: flags(blocks, false),
            failing: flags(blocks, false),
        }
    }

    /// A verdict that assumes nothing, which is what an unfoldable body gets.
    pub open spec fn everything(blocks: nat) -> Reached {
        Reached { live: flags(blocks, true), ..Reached::nothing(blocks) }
    }

    /// What is said once a block is about to be visited again.
    ///
    /// The last visit is the one that holds, so a verdict about the block's
    /// own check is replaced rather than added to.
    pub open spec fn reopened(self, bb: usize) -> Reached {
        Reached {
            settled: flagged(self.settled, bb, false),
            quiet: flagged(self.quiet, bb, false),
            failing: flagged(self.failing, bb, false),
            ..self
        }
    }
}

impl Reach {
    fn nothing(blocks: usize) -> (r: Reach)
        ensures
            r@ == Reached::nothing(blocks as nat),
    {
        Reach {
            live: filled_flags(blocks, false),
            settled: filled_flags(blocks, false),
            quiet: filled_flags(blocks, false),
            failing: filled_flags(blocks, false),
        }
    }

    fn everything(blocks: usize) -> (r: Reach)
        ensures
            r@ == Reached::everything(blocks as nat),
    {
        Reach {
            live: filled_flags(blocks, true),
            settled: filled_flags(blocks, false),
            quiet: filled_flags(blocks, false),
            failing: filled_flags(blocks, false),
        }
    }

    /// Whether the compiler will generate code for a block.
    pub fn is_live(&self, bb: usize) -> (r: bool)
        ensures
            r == flag(self@.live, bb, true),
    {
        get_flag(&self.live, bb, true)
    }

    /// Whether a block's `Assert` was proved unable to fail.
    pub fn is_settled(&self, bb: usize) -> (r: bool)
        ensures
            r == flag(self@.settled, bb, false),
    {
        get_flag(&self.settled, bb, false)
    }

    /// Whether a block's call was proved to raise nothing.
    ///
    /// The callee was walked with what this call site knows about its
    /// arguments, and every block the compiler will generate for it was
    /// found unable to raise. It says nothing about the callee anywhere
    /// else, which is why the callee is still analysed on its own.
    pub fn is_quiet(&self, bb: usize) -> (r: bool)
        ensures
            r == flag(self@.quiet, bb, false),
    {
        get_flag(&self.quiet, bb, false)
    }

    /// Whether a block's `Assert` was proved to fail every time it runs.
    pub fn is_failing(&self, bb: usize) -> (r: bool)
        ensures
            r == flag(self@.failing, bb, false),
    {
        get_flag(&self.failing, bb, false)
    }

    fn reopen(&mut self, bb: usize)
        ensures
            final(self)@ == old(self)@.reopened(bb),
    {
        set_flag(&mut self.settled, bb, false);
        set_flag(&mut self.quiet, bb, false);
        set_flag(&mut self.failing, bb, false);
    }
}

/// Whether a terminator has nowhere to raise from, or is a check the walk
/// settled.
///
/// A call or a drop is not one of them: what either runs is a body this
/// walk did not read.
pub open spec fn ends_silently(block: Block, settled: bool) -> bool {
    match block.terminator {
        None => false,
        Some(term) => match term {
            Terminator::Assert(_) => settled,
            Terminator::Goto(_) => true,
            Terminator::Switch(_, _, _) => true,
            Terminator::Return => true,
            Terminator::Unreachable => true,
            Terminator::FalseEdge(_, _) => true,
            Terminator::FalseUnwind(_, _) => true,
            _ => false,
        },
    }
}

/// Whether a body walked this way has nothing left that can raise: every
/// block the compiler will generate for it ends silently.
pub open spec fn spec_silent(function: Function, reached: Reached) -> bool {
    forall|b: int|
        0 <= b < function.blocks@.len() && flag(reached.live, b as usize, true) ==> ends_silently(
            #[trigger] function.blocks@[b],
            flag(reached.settled, b as usize, false),
        )
}

/// Whether a body walked this way has nothing left that can raise.
fn silent(function: &Function, reach: &Reach) -> (r: bool)
    ensures
        r == spec_silent(*function, reach@),
{
    let mut b: usize = 0;
    while b < function.blocks.len()
        invariant
            b <= function.blocks@.len(),
            forall|k: int|
                0 <= k < b && flag(reach@.live, k as usize, true) ==> ends_silently(
                    #[trigger] function.blocks@[k],
                    flag(reach@.settled, k as usize, false),
                ),
        decreases function.blocks@.len() - b,
    {
        if reach.is_live(b) {
            let calm = match &function.blocks[b].terminator {
                None => false,
                Some(term) => match term {
                    Terminator::Assert(_) => reach.is_settled(b),
                    Terminator::Goto(_) => true,
                    Terminator::Switch(_, _, _) => true,
                    Terminator::Return => true,
                    Terminator::Unreachable => true,
                    Terminator::FalseEdge(_, _) => true,
                    Terminator::FalseUnwind(_, _) => true,
                    _ => false,
                },
            };
            assert(calm == ends_silently(
                function.blocks@[b as int],
                flag(reach@.settled, b, false),
            ));
            if !calm {
                return false;
            }
        }
        b += 1;
    }
    true
}

/// Where a widening step stops, with the constant an operand is and its two
/// neighbours.
pub open spec fn with_stop(marks: Seq<u128>, operand: Operand) -> Seq<u128> {
    match operand.spec_constant() {
        Some(known) => {
            let first = marks.push(known.bits);
            let second = match known.fitted(known.val() - 1) {
                Some(under) => first.push(under.bits),
                None => first,
            };
            match known.fitted(known.val() + 1) {
                Some(over) => second.push(over.bits),
                None => second,
            }
        },
        None => marks,
    }
}

/// Whether an operator orders its operands.
pub open spec fn orders(op: BinOp) -> bool {
    op is Lt || op is Le || op is Gt || op is Ge
}

/// Where a widening step stops, with what a statement compares against.
pub open spec fn with_stmt_stops(marks: Seq<u128>, stmt: Statement) -> Seq<u128> {
    match stmt {
        Statement::Assign(_, Rvalue::Binary(op, left, right)) => if orders(op) {
            with_stop(with_stop(marks, left), right)
        } else {
            marks
        },
        _ => marks,
    }
}

/// Where a widening step stops, with what the first `n` of some statements
/// compare against.
pub open spec fn with_stmts_stops(marks: Seq<u128>, stmts: Seq<Statement>, n: nat) -> Seq<u128>
    decreases n,
{
    if n == 0 {
        marks
    } else {
        with_stmt_stops(with_stmts_stops(marks, stmts, (n - 1) as nat), stmts[n - 1])
    }
}

/// Where a widening step stops, with what the first `n` of some blocks compare
/// against.
pub open spec fn with_block_stops(blocks: Seq<Block>, n: nat) -> Seq<u128>
    decreases n,
{
    if n == 0 {
        Seq::empty()
    } else {
        let stmts = blocks[n - 1].statements@;
        with_stmts_stops(with_block_stops(blocks, (n - 1) as nat), stmts, stmts.len())
    }
}

/// The values a body compares against.
pub open spec fn spec_stops(function: Function) -> Seq<u128> {
    with_block_stops(function.blocks@, function.blocks@.len())
}

fn add_stop(stops: &mut Thresholds, operand: &Operand)
    ensures
        final(stops).marks@ == with_stop(old(stops).marks@, *operand),
{
    if let Some(known) = operand.constant() {
        stops.add(known.bits);
        if let Some(under) = known.predecessor() {
            stops.add(under.bits);
        }
        if let Some(over) = known.successor() {
            stops.add(over.bits);
        }
    }
}

fn add_stops(stops: &mut Thresholds, stmts: &Vec<Statement>)
    ensures
        final(stops).marks@ == with_stmts_stops(old(stops).marks@, stmts@, stmts@.len()),
{
    let ghost was = stops.marks@;
    let mut i: usize = 0;
    while i < stmts.len()
        invariant
            i <= stmts@.len(),
            stops.marks@ == with_stmts_stops(was, stmts@, i as nat),
        decreases stmts@.len() - i,
    {
        if let Statement::Assign(_, Rvalue::Binary(op, left, right)) = &stmts[i] {
            match *op {
                BinOp::Lt | BinOp::Le | BinOp::Gt | BinOp::Ge => {
                    add_stop(stops, left);
                    add_stop(stops, right);
                },
                _ => {},
            }
        }
        i += 1;
    }
}

/// The values a body compares against.
///
/// They are where a widening step stops, so a counter a loop keeps
/// below one of them keeps that bound instead of being given the whole
/// of its type. The value a comparison rules in sits next to the one it
/// names, so both are recorded.
pub fn stops(function: &Function) -> (r: Thresholds)
    ensures
        r.marks@ == spec_stops(*function),
{
    let mut stops = Thresholds::none();
    let mut b: usize = 0;
    while b < function.blocks.len()
        invariant
            b <= function.blocks@.len(),
            stops.marks@ == with_block_stops(function.blocks@, b as nat),
        decreases function.blocks@.len() - b,
    {
        add_stops(&mut stops, &function.blocks[b].statements);
        b += 1;
    }
    stops
}

/// A number, or the largest a machine word holds.
pub open spec fn capped(n: int) -> int {
    if n > usize::MAX {
        usize::MAX as int
    } else {
        n
    }
}

fn times(a: usize, b: usize) -> (r: usize)
    ensures
        r == capped(a * b),
{
    assert(0 <= a * b <= 0xffff_ffff_ffff_ffff * 0xffff_ffff_ffff_ffff) by (nonlinear_arith)
        requires
            0 <= a <= 0xffff_ffff_ffff_ffff,
            0 <= b <= 0xffff_ffff_ffff_ffff,
    ;
    let product: u128 = (a as u128) * (b as u128);
    if product > usize::MAX as u128 {
        usize::MAX
    } else {
        product as usize
    }
}

fn plus(a: usize, b: usize) -> (r: usize)
    ensures
        r == capped(a + b),
{
    if b > usize::MAX - a {
        usize::MAX
    } else {
        a + b
    }
}

/// How many blocks a walk visits at most.
///
/// It allows each block a turn for every one of [`state::STEPS`] steps of
/// every slot, and two more. A walk that is still moving after that is cut
/// short. How many visits can be asked for whatever the body is
/// [`height::visits`], which grows with the values the body compares against.
pub open spec fn spec_bound(blocks: nat, slots: nat) -> nat {
    let turns = capped(capped(slots * state::STEPS) + 1);
    capped(capped(capped(blocks * turns) + blocks) + 1) as nat
}

/// Whether more visits can be asked for, by a walk that is entered with so many
/// slots, than it is given.
pub open spec fn outgrown(program: Program, at: usize, slots: nat) -> bool {
    let function = program.functions@[at as int];
    spec_bound(function.blocks@.len(), Lens::of(program, function).slots()) < height::visits(
        function.blocks@.len(),
        slots,
        spec_stops(function).len(),
    )
}

/// What a walk holds between two visits.
#[verifier::ext_equal]
pub struct Walk {
    pub reached: Reached,
    pub agenda: Agenda,
    /// Blocks left to spend.
    pub budget: u32,
    pub returns: Returns,
    pub returned: Seq<Left>,
}

impl Walk {
    /// Whether the values named are values of their types.
    pub open spec fn wf(self) -> bool {
        self.agenda.wf() && self.returns.wf() && summary::left_wf(self.returned)
    }

    /// The walk with a state arriving at a block.
    pub open spec fn merged(self, bb: usize, state: Seq<Fact>, marks: Seq<u128>) -> Walk {
        Walk { agenda: self.agenda.merged(bb, state, marks), ..self }
    }

    /// The walk with a state taking a cleanup path.
    pub open spec fn unwound(self, unwind: Unwind, state: Seq<Fact>, marks: Seq<u128>) -> Walk {
        Walk { agenda: state::unwound(self.agenda, unwind, state, marks), ..self }
    }

    /// The walk with a state arriving at the first `n` of some blocks.
    pub open spec fn spread(self, blocks: Seq<usize>, state: Seq<Fact>, marks: Seq<u128>, n: nat) -> Walk
        decreases n,
    {
        if n == 0 {
            self
        } else {
            self.spread(blocks, state, marks, (n - 1) as nat).merged(blocks[n - 1], state, marks)
        }
    }

    /// What a walk that was cut short says: the body as it was found, and
    /// nothing about what it returns, since it has not seen every path out.
    pub open spec fn given_up(self, blocks: nat) -> Walk {
        Walk {
            reached: Reached::everything(blocks),
            returns: Returns::Anything,
            returned: Seq::empty(),
            ..self
        }
    }
}

/// What a list of parts says of one of them, joined with one more fact.
pub open spec fn joined_at(returned: Seq<Left>, at: int, fact: Fact) -> Seq<Left> {
    returned.update(at, Left { fact: returned[at].fact.spec_joined(fact), ..returned[at] })
}

/// Where a list of parts, among the first `n`, names a place.
pub open spec fn part_of(returned: Seq<Left>, path: Path, n: nat) -> Option<nat>
    decreases n,
{
    if n == 0 {
        None
    } else {
        match part_of(returned, path, (n - 1) as nat) {
            Some(at) => Some(at),
            None => if returned[n - 1].path == path {
                Some((n - 1) as nat)
            } else {
                None
            },
        }
    }
}

/// What is returned in parts once one part is left behind on a path out.
pub open spec fn with_part(returned: Seq<Left>, path: Path, fact: Fact, first: bool) -> Seq<Left> {
    match part_of(returned, path, returned.len()) {
        Some(at) => joined_at(returned, at as int, fact),
        None => if first {
            returned.push(Left { path, fact })
        } else {
            returned
        },
    }
}

/// What is returned in parts once the first `n` places of a body are left
/// behind on a path out.
pub open spec fn with_parts(
    lens: Lens,
    state: Seq<Fact>,
    returned: Seq<Left>,
    first: bool,
    n: nat,
) -> Seq<Left>
    decreases n,
{
    if n == 0 {
        returned
    } else {
        let before = with_parts(lens, state, returned, first, (n - 1) as nat);
        let path = lens.places.paths[n - 1];
        if path.base.0 != mir::RETURN_PLACE || !path.spec_portable() {
            before
        } else {
            let slot = Local((lens.places.first + n - 1) as usize);
            with_part(
                before,
                path,
                summary::spec_abroad(read::spec_known_at(state, slot)),
                first,
            )
        }
    }
}

impl Lens {
    /// The walk once an `Assert` is followed.
    ///
    /// Passing the check proves what it was testing, which is what makes
    /// a second division by the same divisor free.
    pub open spec fn asserted(
        self,
        stmts: Seq<Statement>,
        check: Assert,
        bb: usize,
        state: Seq<Fact>,
        w: Walk,
        marks: Seq<u128>,
    ) -> Walk {
        match value::spec_pinned(self.fact(state, check.cond)) {
            Some(known) => if (known.bits != 0) == check.expected {
                Walk {
                    reached: Reached {
                        settled: flagged(w.reached.settled, bb, true),
                        ..w.reached
                    },
                    ..w.merged(check.target, state, marks)
                }
            } else {
                Walk {
                    reached: Reached {
                        failing: flagged(w.reached.failing, bb, true),
                        ..w.reached
                    },
                    ..w.unwound(check.unwind, state, marks)
                }
            },
            None => w.merged(
                check.target,
                state::spec_refined(
                    state,
                    self.subject_of(stmts, check.cond, state),
                    Some(
                        if check.expected {
                            1u128
                        } else {
                            0u128
                        },
                    ),
                    true,
                ),
                marks,
            ).unwound(check.unwind, state, marks),
        }
    }

    /// The state after a place is dropped.
    ///
    /// Glue runs a body this walk did not read, and it holds a pointer to
    /// what it drops.
    pub open spec fn dropped(self, state: Seq<Fact>, place: Place) -> Seq<Fact> {
        places::alias_swept(self.overwritten(state, place), self.places, self.escaped)
    }

    /// The walk once a body returns.
    pub open spec fn came_back(self, state: Seq<Fact>, w: Walk) -> Walk {
        Walk {
            returned: with_parts(
                self,
                state,
                w.returned,
                w.returns is Never,
                self.places.paths.len(),
            ),
            returns: w.returns.spec_met(
                summary::spec_abroad(read::spec_known_at(state, Local(mir::RETURN_PLACE))),
            ),
            ..w
        }
    }
}

/// How much deeper a chain of calls may go.
pub open spec fn room(depth: u32) -> nat {
    if depth <= summary::DEPTH {
        (summary::DEPTH - depth + 1) as nat
    } else {
        0
    }
}

/// The body a call runs, when a walk of another may read it.
///
/// A body that calls itself would be folded against the same arguments
/// forever, and it is the depth that stops the longer cycles.
pub open spec fn spec_target(program: Program, at: usize, depth: u32, budget: u32, call: Call) -> Option<
    usize,
> {
    match call.body {
        Some(to) => if depth >= summary::DEPTH || budget == 0 || to == at || to
            >= program.functions@.len() {
            None
        } else if program.functions@[to as int].params != call.args@.len() || !Lens::of(
            program,
            program.functions@[to as int],
        ).fits() {
            None
        } else {
            Some(to)
        },
        None => None,
    }
}

impl Lens {
    /// Whether the slots of the body can be counted.
    pub open spec fn fits(self) -> bool {
        self.function.locals@.len() + self.places.paths.len() <= usize::MAX
    }
}

/// What a walk of a body called finds: of which function, with what budget,
/// and entered with what.
pub type Deeper = spec_fn(usize, u32, Seq<Fact>) -> Walk;

/// What a call was found to do, and the state after it.
#[verifier::ext_equal]
pub struct Answer {
    pub left: Fact,
    pub quiet: bool,
    pub budget: u32,
    pub after: Seq<Fact>,
}

/// What a call is found to do.
#[verifier::opaque]
pub open spec fn inspected(
    program: Program,
    at: usize,
    depth: u32,
    budget: u32,
    state: Seq<Fact>,
    call: Call,
    after: Seq<Fact>,
    deeper: Deeper,
) -> Answer {
    let lens = Lens::of(program, program.functions@[at as int]);
    match lens.contracted(state, call) {
        Some(claim) => Answer { left: read::spec_measuring(claim), quiet: false, budget, after },
        None => match spec_target(program, at, depth, budget, call) {
            Some(to) => if lens.worth_folding(state, call) {
                let function = program.functions@[to as int];
                let callee = Lens::of(program, function);
                let walk = deeper(to, budget, lens.carried(state, callee, call.args@));
                Answer {
                    left: walk.returns.spec_claim(),
                    quiet: spec_silent(function, walk.reached),
                    budget: walk.budget,
                    after: summary::handed_back(
                        lens,
                        after,
                        call.destination,
                        walk.returned,
                        walk.returned.len(),
                    ),
                }
            } else {
                Answer { left: Fact::nothing(), quiet: false, budget, after }
            },
            None => Answer { left: Fact::nothing(), quiet: false, budget, after },
        },
    }
}

/// The walk once a call is followed.
///
/// A callee that cannot raise cannot unwind, so nothing reaches the cleanup
/// path through it. One that can may write through a pointer it was handed
/// and unwind afterwards, so what escaped cannot be read in the cleanup block
/// either. The destination is left alone there: a call that unwound never
/// wrote one.
#[verifier::opaque]
pub open spec fn called(
    program: Program,
    at: usize,
    depth: u32,
    bb: usize,
    call: Call,
    state: Seq<Fact>,
    w: Walk,
    marks: Seq<u128>,
    deeper: Deeper,
) -> Walk {
    let lens = Lens::of(program, program.functions@[at as int]);
    let found = inspected(
        program,
        at,
        depth,
        w.budget,
        state,
        call,
        lens.dropped(state, call.destination),
        deeper,
    );
    let after = match lens.slot_of(call.destination) {
        Some(slot) => if found.left == Fact::nothing() {
            found.after
        } else {
            state::put(found.after, slot, found.left)
        },
        None => found.after,
    };
    let first = Walk {
        reached: Reached {
            quiet: if found.quiet {
                flagged(w.reached.quiet, bb, true)
            } else {
                w.reached.quiet
            },
            ..w.reached
        },
        budget: found.budget,
        ..w
    };
    let second = match call.target {
        Some(target) => first.merged(target, after, marks),
        None => first,
    };
    if found.quiet {
        second
    } else {
        second.unwound(
            call.unwind,
            places::alias_swept(state, lens.places, lens.escaped),
            marks,
        )
    }
}

/// The walk once a block's terminator is followed into the blocks it can
/// reach.
///
/// Glue that unwinds part way through has still run part way, so the cleanup
/// path inherits the same losses. A yield or an inline assembly block writes
/// through operands this walk does not read, so nothing survives it.
#[verifier::opaque]
pub open spec fn ended(
    program: Program,
    at: usize,
    depth: u32,
    bb: usize,
    term: Terminator,
    state: Seq<Fact>,
    w: Walk,
    marks: Seq<u128>,
    deeper: Deeper,
) -> Walk {
    let lens = Lens::of(program, program.functions@[at as int]);
    let stmts = lens.function.blocks@[bb as int].statements@;
    match term {
        Terminator::Goto(target) => w.merged(target, state, marks),
        Terminator::Switch(discr, arms, otherwise) => Walk {
            agenda: lens.branched(stmts, discr, arms@, otherwise, state, w.agenda, marks),
            ..w
        },
        Terminator::Assert(check) => lens.asserted(stmts, check, bb, state, w, marks),
        Terminator::Call(call) => called(
            program,
            at,
            depth,
            bb,
            call,
            state,
            w,
            marks,
            deeper,
        ),
        Terminator::Drop(place, target, drop, unwind) => {
            let after = lens.dropped(state, place);
            let first = w.merged(target, after, marks);
            let second = match drop {
                Some(other) => first.merged(other, after, marks),
                None => first,
            };
            second.unwound(unwind, after, marks)
        },
        Terminator::Return => lens.came_back(state, w),
        Terminator::FalseEdge(taken, imagined) => w.merged(taken, state, marks).merged(
            imagined,
            state,
            marks,
        ),
        Terminator::FalseUnwind(taken, unwind) => w.merged(taken, state, marks).unwound(
            unwind,
            state,
            marks,
        ),
        Terminator::Yield(blocks) => w.spread(
            blocks@,
            state::spec_blank(state.len()),
            marks,
            blocks@.len(),
        ),
        Terminator::Assembly(blocks, _) => w.spread(
            blocks@,
            state::spec_blank(state.len()),
            marks,
            blocks@.len(),
        ),
        _ => w,
    }
}

/// The walk once a block is visited.
#[verifier::opaque]
pub open spec fn visited(
    program: Program,
    at: usize,
    depth: u32,
    bb: usize,
    state: Seq<Fact>,
    w: Walk,
    marks: Seq<u128>,
    deeper: Deeper,
) -> Walk {
    let lens = Lens::of(program, program.functions@[at as int]);
    let block = lens.function.blocks@[bb as int];
    let opened = Walk { reached: w.reached.reopened(bb), ..w };
    match lens.statements(state, block.statements@, block.statements@.len()) {
        None => opened,
        Some(next) => {
            let live = Walk {
                reached: Reached {
                    live: flagged(opened.reached.live, bb, true),
                    ..opened.reached
                },
                ..opened
            };
            match block.terminator {
                None => live,
                Some(term) => ended(program, at, depth, bb, term, next, live, marks, deeper),
            }
        },
    }
}

/// A walk's end, after at most `n` more turns.
pub open spec fn walked(
    program: Program,
    at: usize,
    depth: u32,
    w: Walk,
    n: nat,
    deeper: Deeper,
) -> Walk
    decreases n,
{
    let function = program.functions@[at as int];
    if n == 0 {
        w.given_up(function.blocks@.len())
    } else if w.agenda.queue.len() == 0 {
        w
    } else if w.budget == 0 {
        w.given_up(function.blocks@.len())
    } else {
        let bb = w.agenda.queue[0];
        let next = visited(
            program,
            at,
            depth,
            bb,
            w.agenda.entry[bb as int]->Some_0,
            Walk { agenda: w.agenda.taken(), budget: (w.budget - 1) as u32, ..w },
            spec_stops(function),
            deeper,
        );
        walked(program, at, depth, next, (n - 1) as nat, deeper)
    }
}

/// A walk of a body before its first visit.
pub open spec fn begun(function: Function, budget: u32, entry: Seq<Fact>) -> Walk {
    Walk {
        reached: Reached::nothing(function.blocks@.len()),
        agenda: Agenda::fresh(function.blocks@.len()).merged(0, entry, spec_stops(function)),
        budget,
        returns: Returns::Never,
        returned: Seq::empty(),
    }
}

/// What a walk of a body finds.
pub open spec fn ran(program: Program, at: usize, depth: u32, budget: u32, entry: Seq<Fact>) -> Walk
    decreases room(depth), 1nat,
{
    let function = program.functions@[at as int];
    let lens = Lens::of(program, function);
    walked(
        program,
        at,
        depth,
        begun(function, budget, entry),
        spec_bound(function.blocks@.len(), lens.slots()),
        below(program, depth),
    )
}

/// What the walks of the bodies called at a depth find.
pub open spec fn below(program: Program, depth: u32) -> Deeper
    decreases room(depth), 0nat,
{
    |to: usize, budget: u32, entry: Seq<Fact>|
        if depth < summary::DEPTH {
            ran(program, to, (depth + 1) as u32, budget, entry)
        } else {
            begun(program.functions@[to as int], budget, entry)
        }
}

/// Folds one body against the arguments it was instantiated with.
pub struct Folder<'a> {
    pub scope: Scope<'a>,
    /// Which function of the program the body is.
    pub at: usize,
    /// How many callees deep this body sits below the one being analysed.
    pub depth: u32,
    /// Blocks left to spend on callees, shared with every fold below this
    /// one so the whole chain costs what one body is allowed.
    pub budget: u32,
    /// What the walk has found the body to return.
    pub returns: Returns,
    /// What it leaves in the places it tracks below the return place, so a
    /// caller reading a field of what it was handed reads the value the
    /// body put there.
    pub returned: Vec<Left>,
}

impl<'a> Folder<'a> {
    /// Whether the folder folds a function of its program.
    pub open spec fn wf(&self) -> bool {
        &&& self.at < self.scope.program.functions@.len()
        &&& self.scope@ == Lens::of(
            *self.scope.program,
            self.scope.program.functions@[self.at as int],
        )
        &&& self.scope@.wf()
        &&& self.returns.wf()
        &&& summary::left_wf(self.returned@)
    }

    /// The program folded.
    pub open spec fn program(&self) -> Program {
        *self.scope.program
    }

    /// Which function is folded, and how deep.
    pub open spec fn place(&self) -> (usize, u32) {
        (self.at, self.depth)
    }

    /// The walk in progress.
    pub open spec fn walk(&self, reach: Reach, work: Work) -> Walk {
        Walk {
            reached: reach@,
            agenda: work@,
            budget: self.budget,
            returns: self.returns,
            returned: self.returned@,
        }
    }

    /// Whether nothing has been folded yet.
    pub open spec fn fresh(&self, budget: u32) -> bool {
        self.budget == budget && self.returns is Never && self.returned@.len() == 0
    }

    /// What the folder holds once a walk has ended.
    pub open spec fn holds(&self, walk: Walk) -> bool {
        self.budget == walk.budget && self.returns == walk.returns && self.returned@
            == walk.returned
    }

    /// Prepares to fold one body, unless its slots cannot be counted.
    pub fn new(program: &'a Program, at: usize, depth: u32, budget: u32) -> (r: Option<Folder<'a>>)
        requires
            at < program.functions@.len(),
        ensures
            match r {
                Some(folder) => {
                    &&& folder.wf()
                    &&& folder.program() == *program
                    &&& folder.place() == (at, depth)
                    &&& folder.fresh(budget)
                },
                None => !Lens::of(*program, program.functions@[at as int]).fits(),
            },
            r is Some ==> Lens::of(*program, program.functions@[at as int]).fits(),
    {
        let function = &program.functions[at];
        match Scope::new(program, function) {
            Some(scope) => {
                let folder = Folder {
                    scope,
                    at,
                    depth,
                    budget,
                    returns: Returns::Never,
                    returned: Vec::new(),
                };
                assert(folder.scope@.places.first == function.locals.len());
                Some(folder)
            },
            None => None,
        }
    }

    fn left_behind(&mut self, state: &State, first: bool)
        requires
            old(self).wf(),
            state::sound(state@),
        ensures
            *final(self) == (Folder { returned: final(self).returned, ..*old(self) }),
            final(self).returned@ == with_parts(
                old(self).scope@,
                state@,
                old(self).returned@,
                first,
                old(self).scope@.places.paths.len(),
            ),
            final(self).wf(),
    {
        let ghost was = *self;
        let n = self.scope.places.len();
        let mut i: usize = 0;
        while i < n
            invariant
                n == was.scope@.places.paths.len(),
                i <= n,
                state::sound(state@),
                was.wf(),
                self.wf(),
                *self == (Folder { returned: self.returned, ..was }),
                self.returned@ == with_parts(
                    was.scope@,
                    state@,
                    was.returned@,
                    first,
                    i as nat,
                ),
            decreases n - i,
        {
            let path = self.scope.places.paths[i];
            if path.base.0 == mir::RETURN_PLACE && path.portable() {
                let slot = Local(self.scope.places.first + i);
                let fact = abroad(known_at(state, slot));
                add_part(&mut self.returned, path, fact, first);
            }
            i += 1;
        }
    }

    /// Follows an `Assert`, recording it when its condition cannot fail.
    ///
    /// Where the check fails every time, only the panic path continues.
    fn assertion(
        &self,
        bb: usize,
        check: &Assert,
        state: State,
        reach: &mut Reach,
        work: &mut Work,
    )
        requires
            self.wf(),
            bb < self.scope@.function.blocks@.len(),
            state::sound(state@),
            old(work)@.wf(),
        ensures
            self.walk(*final(reach), *final(work)) == self.scope@.asserted(
                self.scope@.function.blocks@[bb as int].statements@,
                *check,
                bb,
                state@,
                self.walk(*old(reach), *old(work)),
                old(work).marks(),
            ),
            final(work)@.wf(),
            final(work).marks() == old(work).marks(),
            final(work)@.entry.len() == old(work)@.entry.len(),
            edges::all_sound(
                self.scope@.check_sent(
                    self.scope@.function.blocks@[bb as int].statements@,
                    *check,
                    state@,
                ),
            ),
    {
        let function = self.scope.function;
        let stmts = &function.blocks[bb].statements;
        match self.scope.exact(&state, &check.cond) {
            Some(known) => if known.truth() == check.expected {
                set_flag(&mut reach.settled, bb, true);
                work.merge(check.target, state);
            } else {
                set_flag(&mut reach.failing, bb, true);
                unwind_to(check.unwind, &state, work);
            },
            None => {
                let proved = self.scope.subject_of(stmts, &check.cond, &state);
                let expected: u128 = if check.expected {
                    1
                } else {
                    0
                };
                work.merge(check.target, refined(&state, &proved, Some(expected), true));
                unwind_to(check.unwind, &state, work);
            },
        }
    }

    fn spread(blocks: &Vec<usize>, state: &State, work: &mut Work, Ghost(w): Ghost<Walk>)
        requires
            state::sound(state@),
            old(work)@.wf(),
            w.agenda == old(work)@,
        ensures
            final(work)@ == w.spread(blocks@, state@, old(work).marks(), blocks@.len()).agenda,
            w.spread(blocks@, state@, old(work).marks(), blocks@.len()) == (Walk {
                agenda: final(work)@,
                ..w
            }),
            final(work)@.wf(),
            final(work).marks() == old(work).marks(),
            final(work)@.entry.len() == old(work)@.entry.len(),
            edges::all_sound(edges::everywhere(blocks@, state@, blocks@.len())),
    {
        let ghost marks = work.marks();
        let ghost count = work@.entry.len();
        let mut i: usize = 0;
        while i < blocks.len()
            invariant
                i <= blocks@.len(),
                state::sound(state@),
                work@.wf(),
                work.marks() == marks,
                work@.entry.len() == count,
                w.spread(blocks@, state@, marks, i as nat) == (Walk { agenda: work@, ..w }),
                edges::all_sound(edges::everywhere(blocks@, state@, i as nat)),
            decreases blocks@.len() - i,
        {
            work.merge(blocks[i], copied(state));
            i += 1;
        }
    }

    /// What a call does.
    ///
    /// A contract answers first, since it holds for every implementation
    /// the resolution can reach and costs nothing to read. Anything else is
    /// answered by folding the callee, which is what carries a value
    /// through a call the caller cannot see past, and what proves that a
    /// precondition the caller satisfies leaves the callee nothing to
    /// raise.
    ///
    /// The callee is walked the way this body is, told what the call site
    /// knows about each argument. Every path out of it has to agree on the
    /// value it leaves, which is what settles a check written against the
    /// result of a call. The walk is bounded twice over. The depth caps how
    /// far a chain of calls is followed, which bounds the stack, and the
    /// budget is spent across every callee one body reaches, which bounds
    /// the work.
    fn inspect(&mut self, state: &State, call: &Call, after: &mut State) -> (r: Found)
        requires
            old(self).wf(),
            state::sound(state@),
            state::sound(old(after)@),
        ensures
            ({
                let answer = inspected(
                    old(self).program(),
                    old(self).at,
                    old(self).depth,
                    old(self).budget,
                    state@,
                    *call,
                    old(after)@,
                    below(old(self).program(), old(self).depth),
                );
                &&& r == (Found { left: answer.left, quiet: answer.quiet })
                &&& final(after)@ == answer.after
                &&& *final(self) == (Folder { budget: answer.budget, ..*old(self) })
            }),
            final(self).wf(),
            r.left.wf(),
            state::sound(final(after)@),
        decreases room(old(self).depth), 1nat, 0nat,
    {
        proof {
            reveal(inspected);
        }
        if let Some(claim) = self.scope.contracted(state, call) {
            return Found { left: measuring(claim), quiet: false };
        }
        let program: &'a Program = self.scope.program;
        if self.depth >= summary::DEPTH || self.budget == 0 {
            return Found { left: Fact::blank(), quiet: false };
        }
        let to = match call.body {
            Some(to) => to,
            None => {
                return Found { left: Fact::blank(), quiet: false };
            },
        };
        // A shim rearranges what it was passed, so its parameters are not
        // the operands at the call site.
        if to == self.at || to >= program.functions.len() || program.functions[to].params
            != call.args.len() || !self.scope.worth_folding(state, call) {
            return Found { left: Fact::blank(), quiet: false };
        }
        let mut folder = match Folder::new(program, to, self.depth + 1, self.budget) {
            Some(folder) => folder,
            None => {
                return Found { left: Fact::blank(), quiet: false };
            },
        };
        let entry = self.scope.carried(state, &folder.scope, &call.args);
        let reach = folder.run(entry);
        self.budget = folder.budget;
        self.scope.hand_back(after, &call.destination, &folder.returned);
        Found { left: folder.returns.claim(), quiet: silent(&program.functions[to], &reach) }
    }

    /// Follows a call, recording what walking the callee found.
    fn called(&mut self, bb: usize, call: &Call, state: &State, reach: &mut Reach, work: &mut Work)
        requires
            old(self).wf(),
            state::sound(state@),
            old(work)@.wf(),
        ensures
            final(self).walk(*final(reach), *final(work)) == called(
                old(self).program(),
                old(self).at,
                old(self).depth,
                bb,
                *call,
                state@,
                old(self).walk(*old(reach), *old(work)),
                old(work).marks(),
                below(old(self).program(), old(self).depth),
            ),
            *final(self) == (Folder { budget: final(self).budget, ..*old(self) }),
            final(self).wf(),
            final(work)@.wf(),
            final(work).marks() == old(work).marks(),
            final(work)@.entry.len() == old(work)@.entry.len(),
            edges::all_sound(
                edges::sends(
                    old(self).program(),
                    old(self).at,
                    old(self).depth,
                    bb,
                    Terminator::Call(*call),
                    state@,
                    old(self).budget,
                    below(old(self).program(), old(self).depth),
                ),
            ),
        decreases room(old(self).depth), 2nat, 0nat,
    {
        proof {
            reveal(called);
        }
        let mut after = copied(state);
        let target = self.scope.slot_of(&call.destination);
        self.scope.overwrite(&mut after, &call.destination);
        sweep_aliased(&mut after, &self.scope.places, &self.scope.escaped);
        let found = self.inspect(state, call, &mut after);
        if found.quiet {
            set_flag(&mut reach.quiet, bb, true);
        }
        if found.left != Fact::blank() {
            if let Some(slot) = target {
                record(&mut after, slot, found.left);
            }
        }
        if let Some(target) = call.target {
            work.merge(target, after);
        }
        if !found.quiet {
            let mut unwound = copied(state);
            sweep_aliased(&mut unwound, &self.scope.places, &self.scope.escaped);
            unwind_to(call.unwind, &unwound, work);
        }
    }

    /// Follows a terminator into the blocks it can reach.
    ///
    /// What a body leaves behind is read where it returns rather than after
    /// the walk, since a local's claim only stands where it was made.
    fn terminator(
        &mut self,
        bb: usize,
        term: &Terminator,
        state: State,
        reach: &mut Reach,
        work: &mut Work,
    )
        requires
            old(self).wf(),
            bb < old(self).scope@.function.blocks@.len(),
            state::sound(state@),
            old(work)@.wf(),
        ensures
            final(self).walk(*final(reach), *final(work)) == ended(
                old(self).program(),
                old(self).at,
                old(self).depth,
                bb,
                *term,
                state@,
                old(self).walk(*old(reach), *old(work)),
                old(work).marks(),
                below(old(self).program(), old(self).depth),
            ),
            *final(self) == (Folder {
                budget: final(self).budget,
                returns: final(self).returns,
                returned: final(self).returned,
                ..*old(self)
            }),
            final(self).wf(),
            final(work)@.wf(),
            final(work).marks() == old(work).marks(),
            final(work)@.entry.len() == old(work)@.entry.len(),
            edges::all_sound(
                edges::sends(
                    old(self).program(),
                    old(self).at,
                    old(self).depth,
                    bb,
                    *term,
                    state@,
                    old(self).budget,
                    below(old(self).program(), old(self).depth),
                ),
            ),
        decreases room(old(self).depth), 3nat, 0nat,
    {
        proof {
            reveal(ended);
        }
        match term {
            Terminator::Goto(target) => {
                work.merge(*target, state);
            },
            Terminator::Switch(discr, arms, otherwise) => {
                let function = self.scope.function;
                self.scope.branched(
                    &function.blocks[bb].statements,
                    discr,
                    arms,
                    *otherwise,
                    &state,
                    work,
                );
            },
            Terminator::Assert(check) => {
                self.assertion(bb, check, state, reach, work);
            },
            Terminator::Call(call) => {
                self.called(bb, call, &state, reach, work);
            },
            Terminator::Drop(place, target, drop, unwind) => {
                let mut after = state;
                self.scope.overwrite(&mut after, place);
                sweep_aliased(&mut after, &self.scope.places, &self.scope.escaped);
                work.merge(*target, copied(&after));
                if let Some(other) = drop {
                    work.merge(*other, copied(&after));
                }
                unwind_to(*unwind, &after, work);
            },
            Terminator::Return => {
                let first = self.returns.is_new();
                self.left_behind(&state, first);
                let held = known_at(&state, Local(mir::RETURN_PLACE));
                self.returns = self.returns.met(abroad(held));
            },
            Terminator::FalseEdge(taken, imagined) => {
                work.merge(*taken, copied(&state));
                work.merge(*imagined, state);
            },
            Terminator::FalseUnwind(taken, unwind) => {
                work.merge(*taken, copied(&state));
                unwind_to(*unwind, &state, work);
            },
            Terminator::Yield(blocks) => {
                let blank = state::blank(state.len());
                Folder::spread(blocks, &blank, work, Ghost(old(self).walk(*old(reach), *old(work))));
            },
            Terminator::Assembly(blocks, _) => {
                let blank = state::blank(state.len());
                Folder::spread(blocks, &blank, work, Ghost(old(self).walk(*old(reach), *old(work))));
            },
            _ => {},
        }
    }

    /// Walks one block, recording what it reaches.
    ///
    /// A block is visited again whenever a further predecessor makes its
    /// state less definite, and the last visit is the one that holds. A
    /// verdict about the block's own check is therefore replaced rather
    /// than added to: settling it on one path says nothing about the
    /// block once another path reaches it with a different value.
    fn visit(&mut self, bb: usize, state: State, reach: &mut Reach, work: &mut Work)
        requires
            old(self).wf(),
            bb < old(self).scope@.function.blocks@.len(),
            state::sound(state@),
            old(work)@.wf(),
        ensures
            final(self).walk(*final(reach), *final(work)) == visited(
                old(self).program(),
                old(self).at,
                old(self).depth,
                bb,
                state@,
                old(self).walk(*old(reach), *old(work)),
                old(work).marks(),
                below(old(self).program(), old(self).depth),
            ),
            *final(self) == (Folder {
                budget: final(self).budget,
                returns: final(self).returns,
                returned: final(self).returned,
                ..*old(self)
            }),
            final(self).wf(),
            final(work)@.wf(),
            final(work).marks() == old(work).marks(),
            final(work)@.entry.len() == old(work)@.entry.len(),
            edges::all_sound(
                edges::leaving(
                    old(self).program(),
                    old(self).at,
                    old(self).depth,
                    bb,
                    state@,
                    old(self).budget,
                    below(old(self).program(), old(self).depth),
                ),
            ),
        decreases room(old(self).depth), 4nat, 0nat,
    {
        proof {
            reveal(visited);
        }
        reach.reopen(bb);
        let function: &'a Function = self.scope.function;
        let block = &function.blocks[bb];
        let mut state = state;
        if !self.scope.statements(&mut state, &block.statements) {
            return;
        }
        set_flag(&mut reach.live, bb, true);
        if let Some(term) = &block.terminator {
            self.terminator(bb, term, state, reach, work);
        }
    }

    fn give_up(&mut self, blocks: usize) -> (r: Reach)
        requires
            old(self).wf(),
        ensures
            r@ == Reached::everything(blocks as nat),
            *final(self) == (Folder {
                returns: Returns::Anything,
                returned: final(self).returned,
                ..*old(self)
            }),
            final(self).returned@ == Seq::<Left>::empty(),
            final(self).wf(),
    {
        self.returns = Returns::given_up();
        self.returned = Vec::new();
        Reach::everything(blocks)
    }

    /// Visits what waits until nothing does, or until the bound or the budget
    /// is spent.
    fn walk_on(
        &mut self,
        from: Reach,
        agenda: Work,
        bound: usize,
        Ghost(entry): Ghost<Seq<Fact>>,
    ) -> (r: Reach)
        requires
            old(self).wf(),
            cover::kept(
                old(self).program(),
                old(self).at,
                old(self).depth,
                entry,
                agenda@,
                below(old(self).program(), old(self).depth),
            ),
            agenda@.wf(),
            agenda@.entry.len() == old(self).scope@.function.blocks@.len(),
            agenda.marks() == spec_stops(old(self).scope@.function),
        ensures
            ({
                let walk = walked(
                    old(self).program(),
                    old(self).at,
                    old(self).depth,
                    old(self).walk(from, agenda),
                    bound as nat,
                    below(old(self).program(), old(self).depth),
                );
                &&& r@ == walk.reached
                &&& final(self).holds(walk)
                &&& walk.agenda.queue.len() == 0 ==> cover::closed_under_sending(
                    old(self).program(),
                    old(self).at,
                    old(self).depth,
                    entry,
                    walk.agenda,
                    below(old(self).program(), old(self).depth),
                )
                &&& walk.agenda.queue.len() > 0 ==> walk.budget == 0 || bound
                    < height::visits_left(agenda.marks(), agenda@, entry.len())
            }),
            final(self).wf(),
            final(self).program() == old(self).program(),
            final(self).place() == old(self).place(),
        decreases room(old(self).depth), 5nat, 0nat,
    {
        let function: &'a Function = self.scope.function;
        let ghost was = *self;
        let blocks = function.blocks.len();
        let ghost deeper = below(was.program(), was.depth);
        let ghost result = walked(
            was.program(),
            was.at,
            was.depth,
            was.walk(from, agenda),
            bound as nat,
            deeper,
        );
        let mut reach = from;
        let mut work = agenda;
        let mut turn: usize = 0;
        while turn < bound
            invariant
                was == *old(self),
                self.wf(),
                work@.wf(),
                *function == was.program().functions@[was.at as int],
                blocks == function.blocks@.len(),
                work@.entry.len() == blocks,
                work.marks() == spec_stops(*function),
                cover::kept(was.program(), was.at, was.depth, entry, work@, deeper),
                agenda.marks() == spec_stops(*function),
                turn + height::visits_left(work.marks(), work@, entry.len())
                    <= height::visits_left(agenda.marks(), agenda@, entry.len()),
                turn <= bound,
                *self == (Folder {
                    budget: self.budget,
                    returns: self.returns,
                    returned: self.returned,
                    ..was
                }),
                result == walked(
                    was.program(),
                    was.at,
                    was.depth,
                    was.walk(from, agenda),
                    bound as nat,
                    deeper,
                ),
                result == walked(
                    was.program(),
                    was.at,
                    was.depth,
                    self.walk(reach, work),
                    (bound - turn) as nat,
                    deeper,
                ),
                deeper == below(was.program(), was.depth),
            decreases bound - turn,
        {
            let ghost before = self.walk(reach, work);
            let ghost left = (bound - turn) as nat;
            proof {
                walking_steps(was.program(), was.at, was.depth, before, left, deeper);
            }
            if work.is_drained() {
                proof {
                    cover::draining_closes(
                        was.program(),
                        was.at,
                        was.depth,
                        entry,
                        work@,
                        deeper,
                    );
                }
                return reach;
            }
            if self.budget == 0 {
                return self.give_up(blocks);
            }
            self.budget = self.budget - 1;
            if let Some((bb, state)) = work.pop() {
                proof {
                    assert(self.walk(reach, work) =~= (Walk {
                        agenda: before.agenda.taken(),
                        budget: (before.budget - 1) as u32,
                        ..before
                    }));
                }
                self.visit(bb, state, &mut reach, &mut work);
                proof {
                    cover::visiting_keeps(
                        was.program(),
                        was.at,
                        was.depth,
                        entry,
                        before,
                        spec_stops(*function),
                        deeper,
                    );
                    height::visiting_spends(
                        was.program(),
                        was.at,
                        was.depth,
                        entry,
                        before,
                        spec_stops(*function),
                        deeper,
                    );
                }
            }
            turn += 1;
        }
        proof {
            if work@.queue.len() == 0 {
                cover::draining_closes(
                    was.program(),
                    was.at,
                    was.depth,
                    entry,
                    work@,
                    deeper,
                );
            }
            walking_steps(
                was.program(),
                was.at,
                was.depth,
                self.walk(reach, work),
                0,
                deeper,
            );
        }
        self.give_up(blocks)
    }

    /// Runs the walk to a fixpoint.
    ///
    /// A walk that ends with nothing left to visit has closed its entries:
    /// the first block's covers the state given, and whatever a block sends
    /// from its own is covered where it arrives. One that still has blocks
    /// to visit when its turns or its budget are spent is cut short, and its
    /// turns are never spent where they reach [`height::visits`]. The body
    /// is then reported as it was found instead of by a verdict that assumed
    /// away an unsettled branch, and nothing is said about what it returns: a
    /// walk cut short has not seen every path out.
    pub fn run(&mut self, entry: State) -> (r: Reach)
        requires
            old(self).wf(),
            old(self).fresh(old(self).budget),
            state::sound(entry@),
        ensures
            ({
                let walk = ran(
                    old(self).program(),
                    old(self).at,
                    old(self).depth,
                    old(self).budget,
                    entry@,
                );
                &&& r@ == walk.reached
                &&& final(self).holds(walk)
                &&& walk.agenda.queue.len() == 0 ==> cover::closed_under_sending(
                    old(self).program(),
                    old(self).at,
                    old(self).depth,
                    entry@,
                    walk.agenda,
                    below(old(self).program(), old(self).depth),
                )
                &&& walk.agenda.queue.len() > 0 ==> walk.budget == 0 || outgrown(
                    old(self).program(),
                    old(self).at,
                    entry@.len(),
                )
            }),
            final(self).wf(),
            final(self).program() == old(self).program(),
            final(self).place() == old(self).place(),
        decreases room(old(self).depth), 6nat, 0nat,
    {
        let function: &'a Function = self.scope.function;
        let blocks = function.blocks.len();
        let slots = self.scope.places.first + self.scope.places.len();
        let reach = Reach::nothing(blocks);
        let mut work = Work::new(blocks, stops(function));
        let ghost given = entry@;
        work.merge(0, entry);
        let bound = plus(
            plus(times(blocks, plus(times(slots, state::STEPS), 1)), blocks),
            1,
        );
        proof {
            assert(self.walk(reach, work) =~= begun(*function, self.budget, entry@));
            assert(bound == spec_bound(blocks as nat, slots as nat));
            cover::beginning_keeps(
                self.program(),
                self.at,
                self.depth,
                self.budget,
                given,
                below(self.program(), self.depth),
            );
            height::beginning_is_bounded(*function, self.budget, given);
        }
        self.walk_on(reach, work, bound, Ghost(given))
    }
}

/// What one more turn of a walk does.
proof fn walking_steps(program: Program, at: usize, depth: u32, w: Walk, n: nat, deeper: Deeper)
    ensures
        n == 0 ==> walked(program, at, depth, w, n, deeper) == w.given_up(
            program.functions@[at as int].blocks@.len(),
        ),
        n > 0 && w.agenda.queue.len() == 0 ==> walked(program, at, depth, w, n, deeper) == w,
        n > 0 && w.agenda.queue.len() > 0 && w.budget == 0 ==> walked(
            program,
            at,
            depth,
            w,
            n,
            deeper,
        ) == w.given_up(program.functions@[at as int].blocks@.len()),
        n > 0 && w.agenda.queue.len() > 0 && w.budget > 0 ==> walked(
            program,
            at,
            depth,
            w,
            n,
            deeper,
        ) == walked(
            program,
            at,
            depth,
            visited(
                program,
                at,
                depth,
                w.agenda.queue[0],
                w.agenda.entry[w.agenda.queue[0] as int]->Some_0,
                Walk { agenda: w.agenda.taken(), budget: (w.budget - 1) as u32, ..w },
                spec_stops(program.functions@[at as int]),
                deeper,
            ),
            (n - 1) as nat,
            deeper,
        ),
{
}

fn find_part(returned: &Vec<Left>, path: Path) -> (r: Option<usize>)
    ensures
        match r {
            Some(at) => at < returned@.len() && part_of(returned@, path, returned@.len()) == Some(
                at as nat,
            ),
            None => part_of(returned@, path, returned@.len()) is None,
        },
{
    let mut found: Option<usize> = None;
    let mut i: usize = 0;
    while i < returned.len()
        invariant
            i <= returned@.len(),
            match found {
                Some(at) => at < i && part_of(returned@, path, i as nat) == Some(at as nat),
                None => part_of(returned@, path, i as nat) is None,
            },
        decreases returned@.len() - i,
    {
        if found.is_none() && returned[i].path == path {
            found = Some(i);
        }
        i += 1;
    }
    found
}

fn add_part(returned: &mut Vec<Left>, path: Path, fact: Fact, first: bool)
    requires
        summary::left_wf(old(returned)@),
        fact.wf(),
    ensures
        final(returned)@ == with_part(old(returned)@, path, fact, first),
        summary::left_wf(final(returned)@),
{
    match find_part(returned, path) {
        Some(at) => {
            assert(returned@[at as int].fact.wf());
            let held = returned[at];
            returned.set(at, Left { fact: held.fact.joined(fact), ..held });
        },
        None => {
            if first {
                returned.push(Left { path, fact });
            }
        },
    }
}

/// What one instantiation of a body reaches.
pub open spec fn spec_reachable(program: Program, at: usize) -> Reached {
    let function = program.functions@[at as int];
    let lens = Lens::of(program, function);
    if lens.fits() {
        ran(program, at, 0, summary::BUDGET, state::spec_blank(lens.slots())).reached
    } else {
        Reached::everything(function.blocks@.len())
    }
}

/// Whether what one instantiation of a body is found to reach rests on entries
/// that cover every state sent to them, unless the walk was cut short, which
/// it is only where its budget or its turns do not last.
pub open spec fn entries_close(program: Program, at: usize) -> bool {
    let lens = Lens::of(program, program.functions@[at as int]);
    let entry = state::spec_blank(lens.slots());
    let walk = ran(program, at, 0, summary::BUDGET, entry);
    lens.fits() ==> if walk.agenda.queue.len() == 0 {
        cover::closed_under_sending(program, at, 0, entry, walk.agenda, below(program, 0))
    } else {
        walk.budget == 0 || outgrown(program, at, lens.slots())
    }
}

/// Works out what one instantiation of a body reaches.
pub fn reachable(program: &Program, at: usize) -> (r: Reach)
    requires
        at < program.functions@.len(),
    ensures
        r@ == spec_reachable(*program, at),
        entries_close(*program, at),
{
    match Folder::new(program, at, 0, summary::BUDGET) {
        Some(folder) => {
            let mut folder = folder;
            let slots = folder.scope.places.first + folder.scope.places.len();
            let entry = state::blank(slots);
            folder.run(entry)
        },
        None => Reach::everything(program.functions[at].blocks.len()),
    }
}

} // verus!
