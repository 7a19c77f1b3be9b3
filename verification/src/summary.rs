//! What the walk finds a call does.
//!
//! A call is the edge of what one body says. Reading the callee is what
//! carries a value across it, and what shows that a check the callee makes
//! cannot fail for the arguments this call site hands it. A contract
//! answers first where one holds for every implementation the resolution
//! can reach, since it costs nothing to read.

use vstd::prelude::*;

use crate::mir::{Call, Contract, Operand, Place, Type};
use crate::places;
use crate::places::Path;
use crate::ranges;
use crate::read;
use crate::read::{apart_from_zero, is_nonzero, known_at, written_at, Lens, Scope};
use crate::state;
use crate::state::{record, State};
use crate::value;
use crate::value::{all_ones, Bounds, Claim, Fact, Known, Local, Rank, Ranks, Side};

verus! {

/// How far a chain of calls is followed for the value it returns.
///
/// Each step is one more body on the stack, and the calls worth reading a
/// value out of sit shallow: `cmp::max` is one step above `Ord::max`, which
/// is the deepest of them.
pub const DEPTH: u32 = 3;

/// How many blocks folding one body may spend on the callees it reads
/// values out of.
///
/// A summary is only asked for where the answer would settle a check, so
/// the budget is rarely touched. It is what keeps a body that calls into a
/// wide subgraph from paying for all of it.
pub const BUDGET: u32 = 4096;

/// What every path out of a body was found to return.
#[derive(Debug, Clone, Copy, PartialEq, Eq, Structural)]
pub enum Returns {
    /// No path that returns has been walked.
    Never,
    /// Every such path leaves a value this claim admits.
    Held(Fact),
    /// Nothing definite.
    Anything,
}

impl Returns {
    /// Whether the values named are values of their types.
    pub open spec fn wf(self) -> bool {
        match self {
            Returns::Held(fact) => fact.wf(),
            _ => true,
        }
    }

    /// What is returned once one more path out has been walked.
    pub open spec fn spec_met(self, fact: Fact) -> Returns {
        match self {
            Returns::Never => Returns::Held(fact),
            Returns::Held(held) => Returns::Held(held.spec_joined(fact)),
            Returns::Anything => Returns::Anything,
        }
    }

    /// Adds what one path out of the body leaves behind.
    pub fn met(self, fact: Fact) -> (r: Returns)
        requires
            self.wf(),
            fact.wf(),
        ensures
            r == self.spec_met(fact),
            r.wf(),
    {
        match self {
            Returns::Never => Returns::Held(fact),
            Returns::Held(held) => Returns::Held(held.joined(fact)),
            Returns::Anything => Returns::Anything,
        }
    }

    /// Whether no path that returns has been walked.
    pub fn is_new(self) -> (r: bool)
        ensures
            r == (self is Never),
    {
        match self {
            Returns::Never => true,
            _ => false,
        }
    }

    /// What a walk cut short says: it has not seen every path out.
    pub fn given_up() -> (r: Returns)
        ensures
            r is Anything,
    {
        Returns::Anything
    }

    /// The claim every path agrees on.
    pub open spec fn spec_claim(self) -> Fact {
        match self {
            Returns::Held(fact) => fact,
            _ => Fact::nothing(),
        }
    }

    /// The claim every path agrees on.
    ///
    /// A body no path returns from has none: the call never comes back, so
    /// there is no value for the caller to read.
    pub fn claim(self) -> (r: Fact)
        requires
            self.wf(),
        ensures
            r == self.spec_claim(),
            r.wf(),
    {
        match self {
            Returns::Held(fact) => fact,
            _ => Fact::blank(),
        }
    }
}

/// What a body leaves in one part of what it returns.
#[derive(Debug, Clone, Copy, PartialEq, Eq, Structural)]
pub struct Left {
    pub path: Path,
    pub fact: Fact,
}

/// Whether the values named are values of their types.
pub open spec fn left_wf(left: Seq<Left>) -> bool {
    forall|i: int| 0 <= i < left.len() ==> (#[trigger] left[i]).fact.wf()
}

/// What folding a callee at one call site found.
#[derive(Debug, Clone, Copy, PartialEq, Eq, Structural)]
pub struct Found {
    /// What every path out of the callee leaves behind.
    pub left: Fact,
    /// Whether the callee, walked with these arguments, raises nothing.
    pub quiet: bool,
}

/// What one argument of a call tells the parameter it becomes.
#[derive(Debug, Clone, Copy, PartialEq, Eq, Structural)]
pub struct Carried {
    /// Where the argument's claims live in the caller, so a claim naming it
    /// can be rewritten to name the parameter.
    pub slot: Option<Local>,
    /// Whether the argument arrives at the type the parameter is declared
    /// with, which is what makes a claim about it describe the same value.
    pub alike: bool,
    pub fact: Fact,
}

/// Whether a claim means the same thing outside the body it was read in.
///
/// A length names a local of that body, so it says nothing anywhere else.
pub open spec fn spec_portable(claim: Option<Claim>) -> Option<Claim> {
    match claim {
        Some(Claim::Length(_)) => None,
        _ => claim,
    }
}

/// The claim, when it means the same thing outside the body it was read in.
pub fn portable(claim: Option<Claim>) -> (r: Option<Claim>)
    ensures
        r == spec_portable(claim),
{
    match claim {
        Some(Claim::Length(_)) => None,
        _ => claim,
    }
}

/// The claim as it reads outside the body it was made in.
pub open spec fn spec_abroad(held: Fact) -> Fact {
    Fact {
        value: spec_portable(held.value),
        order: Ranks::Empty,
        same: None,
        paired: None,
        spans: None,
        over: None,
        ..held
    }
}

/// The claim as it reads outside the body it was made in.
///
/// The planes that name a local describe nothing anywhere else, so a
/// caller is handed what is left rather than a claim about one of its
/// own locals that happens to share a number.
pub fn abroad(held: Fact) -> (r: Fact)
    requires
        held.wf(),
    ensures
        r == spec_abroad(held),
        r.wf(),
{
    Fact {
        value: portable(held.value),
        order: Ranks::none_held(),
        same: None,
        paired: None,
        spans: None,
        over: None,
        ..held
    }
}

/// The range a count of bits lands in.
pub open spec fn spec_counted(read: Option<Type>, at: Option<Type>) -> Option<Claim> {
    match (read, at) {
        (Some(source), Some(there)) => match (source.spec_seed(), there.spec_seed()) {
            (Some(of), Some(seed)) => if of.width <= value::ones(seed.width as nat) {
                ranges::within(
                    Bounds::spec_new(seed, Known { bits: of.width as u128, ..seed }),
                )
            } else {
                None
            },
            _ => None,
        },
        _ => None,
    }
}

/// The range a count of bits lands in.
///
/// The answer is a number of bits of the value counted, so it lies
/// between none of them and all of them.
pub fn counted(read: Option<Type>, at: Option<Type>) -> (r: Option<Claim>)
    ensures
        r == spec_counted(read, at),
        read::claim_wf(r),
{
    match (read, at) {
        (Some(source), Some(there)) => match (source.seed(), there.seed()) {
            (Some(of), Some(seed)) => if of.width as u128 <= all_ones(seed.width) {
                ranges::claimed(Bounds::new(seed, Known { bits: of.width as u128, ..seed }))
            } else {
                None
            },
            _ => None,
        },
        _ => None,
    }
}

/// The larger or the smaller of two values of one type.
pub open spec fn spec_pick(larger: bool, a: Known, b: Known) -> Option<Known> {
    match a.spec_order(b) {
        Some(by) => Some(
            if (by is Greater) == larger {
                a
            } else {
                b
            },
        ),
        None => None,
    }
}

fn pick(larger: bool, a: Known, b: Known) -> (r: Option<Known>)
    requires
        a.wf(),
        b.wf(),
    ensures
        r == spec_pick(larger, a, b),
        match r {
            Some(k) => k.wf(),
            None => true,
        },
{
    match a.order(b) {
        Some(by) => if (by == Side::Greater) == larger {
            Some(a)
        } else {
            Some(b)
        },
        None => None,
    }
}

/// The range the larger or the smaller of two values in two ranges lies in.
pub open spec fn spec_picked(larger: bool, left: Bounds, right: Bounds) -> Option<Claim> {
    match (spec_pick(larger, left.lo, right.lo), spec_pick(larger, left.hi, right.hi)) {
        (Some(lo), Some(hi)) => ranges::within(Bounds::spec_new(lo, hi)),
        _ => None,
    }
}

/// The range a call that picks one of two numbers leaves behind.
///
/// Both ends move together: the larger of two values is at least the
/// larger of their lower ends and never above the larger of their upper
/// ends. That is what keeps `right.max(1)` away from zero whatever the
/// argument holds, and what bounds `right.min(9)` from above.
pub fn picked(larger: bool, left: Bounds, right: Bounds) -> (r: Option<Claim>)
    requires
        left.wf(),
        right.wf(),
    ensures
        r == spec_picked(larger, left, right),
        read::claim_wf(r),
{
    match (pick(larger, left.lo, right.lo), pick(larger, left.hi, right.hi)) {
        (Some(lo), Some(hi)) => ranges::claimed(Bounds::new(lo, hi)),
        _ => None,
    }
}

/// The larger or the smaller of two values lies in the range picked from
/// theirs.
pub proof fn picking_is_conservative(larger: bool, left: Bounds, right: Bounds, x: Known, y: Known)
    requires
        left.wf(),
        right.wf(),
        x.wf(),
        y.wf(),
        left.holds(x),
        right.holds(y),
        x.same(y),
    ensures
        spec_picked(larger, left, right) is Some,
        spec_picked(larger, left, right)->Some_0 is Within,
        spec_pick(larger, x, y) is Some,
        spec_picked(larger, left, right)->Some_0->Within_0.holds(spec_pick(larger, x, y)->Some_0),
{
}

/// The first of some arguments, among the first `n`, that a slot became the
/// parameter of.
pub open spec fn carrier(all: Seq<Carried>, of: Local, n: nat) -> Option<nat>
    decreases n,
{
    if n == 0 {
        None
    } else {
        match carrier(all, of, (n - 1) as nat) {
            Some(at) => Some(at),
            None => if all[n - 1].alike && all[n - 1].slot == Some(of) {
                Some((n - 1) as nat)
            } else {
                None
            },
        }
    }
}

fn find_carrier(all: &Vec<Carried>, of: Local) -> (r: Option<usize>)
    ensures
        match r {
            Some(at) => carrier(all@, of, all@.len()) == Some(at as nat) && at < usize::MAX,
            None => carrier(all@, of, all@.len()) is None,
        },
{
    let n = all.len();
    let mut found: Option<usize> = None;
    let mut i: usize = 0;
    while i < n
        invariant
            n == all@.len(),
            i <= n,
            match found {
                Some(at) => carrier(all@, of, i as nat) == Some(at as nat) && at < i,
                None => carrier(all@, of, i as nat) is None,
            },
        decreases n - i,
    {
        if found.is_none() && all[i].alike && all[i].slot == Some(of) {
            found = Some(i);
        }
        i += 1;
    }
    found
}

/// An ordering against an argument, rewritten to name its parameter.
pub open spec fn rewritten(all: Seq<Carried>, rank: Option<Rank>) -> Option<Rank> {
    match rank {
        Some(held) => match carrier(all, held.of, all.len()) {
            Some(at) => Some(Rank { rel: held.rel, of: Local((at + 1) as usize) }),
            None => None,
        },
        None => None,
    }
}

fn rewrite(all: &Vec<Carried>, rank: Option<Rank>) -> (r: Option<Rank>)
    ensures
        r == rewritten(all@, rank),
{
    match rank {
        Some(held) => match find_carrier(all, held.of) {
            Some(at) => Some(Rank { rel: held.rel, of: Local(at + 1) }),
            None => None,
        },
        None => None,
    }
}

/// The orderings of an argument, rewritten to name parameters.
pub open spec fn reranked(all: Seq<Carried>, held: Ranks) -> Ranks {
    match (rewritten(all, held.spec_first()), rewritten(all, held.spec_second())) {
        (Some(a), Some(b)) => Ranks::Empty.with(a.rel, a.of).with(b.rel, b.of),
        (Some(a), None) => Ranks::One(a),
        (None, Some(b)) => Ranks::One(b),
        (None, None) => Ranks::Empty,
    }
}

fn rerank(all: &Vec<Carried>, held: Ranks) -> (r: Ranks)
    ensures
        r == reranked(all@, held),
{
    let mut ranks = Ranks::none_held();
    if let Some(a) = rewrite(all, held.first()) {
        ranks.add(a.rel, a.of);
    }
    if let Some(b) = rewrite(all, held.second()) {
        ranks.add(b.rel, b.of);
    }
    ranks
}

/// What is carried into the first `n` parameters.
pub open spec fn entered(callee: Lens, all: Seq<Carried>, n: nat) -> Seq<Fact>
    decreases n,
{
    if n == 0 {
        state::spec_blank(callee.slots())
    } else {
        let before = entered(callee, all, (n - 1) as nat);
        let held = all[n - 1];
        if places::aimed_at(callee.escaped, Local(n as usize)) || !held.alike {
            before
        } else {
            state::put(
                before,
                Local(n as usize),
                Fact { order: reranked(all, held.fact.order), ..held.fact },
            )
        }
    }
}

/// The claim a field of an argument carries to the field of the parameter it
/// becomes.
pub open spec fn field_carried(
    lens: Lens,
    state: Seq<Fact>,
    args: Seq<Operand>,
    all: Seq<Carried>,
    path: Path,
) -> Option<Fact> {
    let k = path.base.0 - 1;
    if 0 <= k < args.len() && all[k].alike && path.spec_portable() {
        match args[k] {
            Operand::Read(place, _) => match place.spec_as_local() {
                Some(base) => match lens.places.at(Path { base, ..path }) {
                    Some(slot) => if places::aimed_at(lens.escaped, slot) {
                        None
                    } else {
                        Some(spec_abroad(read::spec_known_at(state, slot)))
                    },
                    None => None,
                },
                None => None,
            },
            _ => None,
        }
    } else {
        None
    }
}

/// What is carried into the first `n` places a callee is tracked at.
pub open spec fn fields_carried(
    lens: Lens,
    state: Seq<Fact>,
    callee: Lens,
    args: Seq<Operand>,
    all: Seq<Carried>,
    entry: Seq<Fact>,
    n: nat,
) -> Seq<Fact>
    decreases n,
{
    if n == 0 {
        entry
    } else {
        let before = fields_carried(lens, state, callee, args, all, entry, (n - 1) as nat);
        match field_carried(lens, state, args, all, callee.places.paths[n - 1]) {
            Some(fact) => state::put(
                before,
                Local((callee.places.first + n - 1) as usize),
                fact,
            ),
            None => before,
        }
    }
}

/// A state once the first `n` parts of what a callee returned are recorded
/// against the place it was put in.
pub open spec fn handed_back(
    lens: Lens,
    after: Seq<Fact>,
    destination: Place,
    returned: Seq<Left>,
    n: nat,
) -> Seq<Fact>
    decreases n,
{
    if n == 0 {
        after
    } else {
        let before = handed_back(lens, after, destination, returned, (n - 1) as nat);
        let left = returned[n - 1];
        match destination.spec_as_local() {
            Some(base) => match lens.places.at(Path { base, ..left.path }) {
                Some(slot) => if places::aimed_at(lens.escaped, slot) {
                    before
                } else {
                    state::put(before, slot, left.fact)
                },
                None => before,
            },
            None => before,
        }
    }
}

impl Lens {
    /// The value a call returns by the contract of what it calls.
    pub open spec fn contracted(self, state: Seq<Fact>, call: Call) -> Option<Claim> {
        let args = call.args@;
        match call.contract {
            None => None,
            Some(Contract::SliceLen) => if args.len() > 0 {
                match self.source_of(state, args[0]) {
                    Some(local) => Some(Claim::Length(local)),
                    None => None,
                }
            } else {
                None
            },
            Some(Contract::Larger) => self.picked(state, true, args),
            Some(Contract::Smaller) => self.picked(state, false, args),
            Some(Contract::Counted) => if args.len() > 0 {
                spec_counted(args[0].spec_ty(self.program), call.destination.ty)
            } else {
                None
            },
            Some(Contract::Nonzero) => if args.len() > 0 && read::spec_is_nonzero(
                args[0].spec_ty(self.program),
            ) {
                read::spec_apart_from_zero(call.destination.ty)
            } else {
                None
            },
        }
    }

    /// The range a call that picks one of two numbers leaves behind.
    pub open spec fn picked(self, state: Seq<Fact>, larger: bool, args: Seq<Operand>) -> Option<
        Claim,
    > {
        if args.len() != 2 {
            None
        } else {
            match (self.spread(state, args[0]), self.spread(state, args[1])) {
                (Some(left), Some(right)) => spec_picked(larger, left, right),
                _ => None,
            }
        }
    }

    /// Whether an argument carries a fact into the callee.
    pub open spec fn informs(self, state: Seq<Fact>, arg: Operand) -> bool {
        let fact = self.fact(state, arg);
        fact.tag is Some || fact.extent is Some || spec_portable(fact.value) is Some
    }

    /// Whether folding a callee could tell this call site anything.
    pub open spec fn worth_folding(self, state: Seq<Fact>, call: Call) -> bool {
        (exists|i: int| 0 <= i < call.args@.len() && #[trigger] self.informs(state, call.args@[i]))
            || read::spec_written_at(call.destination.ty) is Some
    }

    /// What one argument tells the parameter it becomes.
    ///
    /// A claim written at another type describes another value, and the
    /// planes that name a local of the caller name nothing in the callee,
    /// but for the orderings, which are rewritten.
    pub open spec fn about(self, state: Seq<Fact>, callee: Lens, index: int, arg: Operand) -> Carried {
        let param = if index + 1 < callee.function.locals@.len() {
            callee.function.locals@[index + 1]
        } else {
            None
        };
        let held = self.fact(state, arg);
        let claim = spec_portable(held.value);
        Carried {
            slot: self.source_of(state, arg),
            alike: param is Some && param == arg.spec_ty(self.program),
            fact: Fact {
                value: match claim {
                    Some(c) => if c.spec_ty() == read::spec_written_at(param) {
                        claim
                    } else {
                        None
                    },
                    None => None,
                },
                same: None,
                paired: None,
                spans: None,
                over: None,
                ..held
            },
        }
    }

    /// What the arguments of a call tell the parameters they become.
    pub open spec fn all_carried(self, state: Seq<Fact>, callee: Lens, args: Seq<Operand>) -> Seq<
        Carried,
    > {
        Seq::new(args.len(), |i: int| self.about(state, callee, i, args[i]))
    }

    /// The state a callee is entered with.
    pub open spec fn carried(self, state: Seq<Fact>, callee: Lens, args: Seq<Operand>) -> Seq<Fact> {
        let all = self.all_carried(state, callee, args);
        fields_carried(
            self,
            state,
            callee,
            args,
            all,
            entered(callee, all, args.len()),
            callee.places.paths.len(),
        )
    }
}

impl<'a> Scope<'a> {
    fn picks(&self, state: &State, larger: bool, args: &Vec<Operand>) -> (r: Option<Claim>)
        requires
            self@.wf(),
            state::sound(state@),
        ensures
            r == self@.picked(state@, larger, args@),
            read::claim_wf(r),
    {
        if args.len() != 2 {
            return None;
        }
        match (self.spread(state, &args[0]), self.spread(state, &args[1])) {
            (Some(left), Some(right)) => picked(larger, left, right),
            _ => None,
        }
    }

    /// The value a call returns by the contract of what it calls.
    ///
    /// Picking the larger or the smaller of two numbers is what pins a value
    /// away from the end of its range, and the two are read here rather than
    /// folded because the body compares through references the walk does not
    /// follow. A primitive cannot carry another crate's implementation of the
    /// trait, so the body reached is the one this claim describes. Counting
    /// the bits of a value, set or leading or trailing zero, can never answer
    /// above the width of the type it was read at, which is what clears the
    /// table every such count is used to reach into.
    pub fn contracted(&self, state: &State, call: &Call) -> (r: Option<Claim>)
        requires
            self@.wf(),
            state::sound(state@),
        ensures
            r == self@.contracted(state@, *call),
            read::claim_wf(r),
    {
        match call.contract {
            None => None,
            Some(Contract::SliceLen) => if call.args.len() > 0 {
                match self.source_of(state, &call.args[0]) {
                    Some(local) => Some(Claim::Length(local)),
                    None => None,
                }
            } else {
                None
            },
            Some(Contract::Larger) => self.picks(state, true, &call.args),
            Some(Contract::Smaller) => self.picks(state, false, &call.args),
            Some(Contract::Counted) => if call.args.len() > 0 {
                counted(call.args[0].ty(self.program), call.destination.ty)
            } else {
                None
            },
            Some(Contract::Nonzero) => if call.args.len() > 0 && is_nonzero(
                call.args[0].ty(self.program),
            ) {
                apart_from_zero(call.destination.ty)
            } else {
                None
            },
        }
    }

    /// Whether folding a callee could tell this call site anything.
    ///
    /// A call the walk knows nothing about the arguments of folds to what
    /// the callee does everywhere, which the graph it belongs to already
    /// accounts for. What earns the walk is an argument carrying a fact
    /// into the callee, or a result a check downstream can read.
    pub fn worth_folding(&self, state: &State, call: &Call) -> (r: bool)
        requires
            self@.wf(),
            state::sound(state@),
        ensures
            r == self@.worth_folding(state@, *call),
    {
        let mut i: usize = 0;
        while i < call.args.len()
            invariant
                self@.wf(),
                state::sound(state@),
                i <= call.args@.len(),
                forall|k: int| 0 <= k < i ==> !#[trigger] self@.informs(state@, call.args@[k]),
            decreases call.args@.len() - i,
        {
            let fact = self.fact(state, &call.args[i]);
            if fact.tag.is_some() || fact.extent.is_some() || portable(fact.value).is_some() {
                assert(self@.informs(state@, call.args@[i as int]));
                return true;
            }
            i += 1;
        }
        written_at(call.destination.ty).is_some()
    }

    /// What one argument tells the parameter it becomes.
    fn about(&self, state: &State, callee: &Scope<'a>, index: usize, arg: &Operand) -> (r: Carried)
        requires
            self@.wf(),
            state::sound(state@),
            index < usize::MAX,
        ensures
            r == self@.about(state@, callee@, index as int, *arg),
            r.fact.wf(),
    {
        let param = if index + 1 < callee.function.locals.len() {
            callee.function.locals[index + 1]
        } else {
            None
        };
        let passed = arg.ty(self.program);
        let held = self.fact(state, arg);
        let claim = portable(held.value);
        let value = match claim {
            Some(c) => if c.ty() == written_at(param) {
                claim
            } else {
                None
            },
            None => None,
        };
        Carried {
            slot: self.source_of(state, arg),
            alike: param.is_some() && param == passed,
            fact: Fact { value, same: None, paired: None, spans: None, over: None, ..held },
        }
    }

    fn field_carried(
        &self,
        state: &State,
        args: &Vec<Operand>,
        all: &Vec<Carried>,
        path: Path,
    ) -> (r: Option<Fact>)
        requires
            self@.wf(),
            state::sound(state@),
            all@.len() == args@.len(),
        ensures
            r == field_carried(self@, state@, args@, all@, path),
            match r {
                Some(f) => f.wf(),
                None => true,
            },
    {
        if path.base.0 == 0 || path.base.0 - 1 >= args.len() {
            return None;
        }
        let k = path.base.0 - 1;
        if !all[k].alike || !path.portable() {
            return None;
        }
        match &args[k] {
            Operand::Read(place, _) => match place.as_local() {
                Some(base) => match self.places.at(path.rebased(base)) {
                    Some(slot) => if self.escapes(slot) {
                        None
                    } else {
                        Some(abroad(known_at(state, slot)))
                    },
                    None => None,
                },
                None => None,
            },
            _ => None,
        }
    }

    /// The state a callee is entered with.
    ///
    /// A parameter is told only what the call site knows about the operand
    /// it was passed, and only where the claim means the same thing there:
    /// one written at another type describes a value the callee never sees.
    /// A claim that names another argument is rewritten to name the
    /// parameter that argument becomes, which is how `i < v.len()` reaches
    /// the bounds check inside the body that does the indexing.
    pub fn carried(&self, state: &State, callee: &Scope<'a>, args: &Vec<Operand>) -> (r: State)
        requires
            self@.wf(),
            callee@.wf(),
            state::sound(state@),
        ensures
            r@ == self@.carried(state@, callee@, args@),
            state::sound(r@),
    {
        let mut all: Vec<Carried> = Vec::new();
        let n = args.len();
        let mut i: usize = 0;
        while i < n
            invariant
                self@.wf(),
                state::sound(state@),
                n == args@.len(),
                i <= n,
                all@.len() == i,
                forall|k: int|
                    0 <= k < i ==> #[trigger] all@[k] == self@.all_carried(
                        state@,
                        callee@,
                        args@,
                    )[k],
                forall|k: int| 0 <= k < i ==> (#[trigger] all@[k]).fact.wf(),
            decreases n - i,
        {
            all.push(self.about(state, callee, i, &args[i]));
            i += 1;
        }
        assert(all@ =~= self@.all_carried(state@, callee@, args@));
        let mut entry = state::blank(callee.places.first + callee.places.paths.len());
        let mut i: usize = 0;
        while i < n
            invariant
                n == args@.len(),
                i <= n,
                all@.len() == n,
                state::sound(entry@),
                forall|k: int| 0 <= k < n ==> (#[trigger] all@[k]).fact.wf(),
                entry@ == entered(callee@, all@, i as nat),
            decreases n - i,
        {
            let held = all[i];
            assert(all@[i as int].fact.wf());
            if !callee.escapes(Local(i + 1)) && held.alike {
                let order = rerank(&all, held.fact.order);
                record(&mut entry, Local(i + 1), Fact { order, ..held.fact });
            }
            i += 1;
        }
        let ghost first = entry@;
        let m = callee.places.paths.len();
        let mut i: usize = 0;
        while i < m
            invariant
                self@.wf(),
                callee@.wf(),
                state::sound(state@),
                m == callee.places.paths@.len(),
                i <= m,
                all@.len() == args@.len(),
                state::sound(entry@),
                entry@ == fields_carried(
                    self@,
                    state@,
                    callee@,
                    args@,
                    all@,
                    first,
                    i as nat,
                ),
            decreases m - i,
        {
            if let Some(fact) = self.field_carried(state, args, &all, callee.places.paths[i]) {
                record(&mut entry, Local(callee.places.first + i), fact);
            }
            i += 1;
        }
        entry
    }

    /// Records what a callee returned in parts against the place it was put
    /// in.
    pub fn hand_back(&self, after: &mut State, destination: &Place, returned: &Vec<Left>)
        requires
            self@.wf(),
            state::sound(old(after)@),
            left_wf(returned@),
        ensures
            final(after)@ == handed_back(
                self@,
                old(after)@,
                *destination,
                returned@,
                returned@.len(),
            ),
            state::sound(final(after)@),
    {
        let ghost was = after@;
        let mut i: usize = 0;
        while i < returned.len()
            invariant
                self@.wf(),
                i <= returned@.len(),
                left_wf(returned@),
                state::sound(after@),
                after@ == handed_back(self@, was, *destination, returned@, i as nat),
            decreases returned@.len() - i,
        {
            let left = returned[i];
            assert(returned@[i as int].fact.wf());
            if let Some(base) = destination.as_local() {
                if let Some(slot) = self.places.at(left.path.rebased(base)) {
                    if !self.escapes(slot) {
                        record(after, slot, left.fact);
                    }
                }
            }
            i += 1;
        }
    }
}

} // verus!
