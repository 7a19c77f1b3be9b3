//! What a branch proves on each of its arms.
//!
//! A branch settles the local it reads, and a boolean standing for a
//! comparison settles what was compared as well. Only the branching block is
//! read, so nothing outside it can make the answer wrong, and a comparison
//! has to still be standing when the branch is reached.

use vstd::prelude::*;

use crate::edges;
use crate::mir::{Arm, Operand, Rvalue, Statement, Type};
use crate::places;
use crate::places::writes;
use crate::read;
use crate::read::{tagged_so, Lens, Scope};
use crate::state;
use crate::state::{held, record, refined, root_of, Compared, State, Subject, SubjectView, Work};
use crate::value;
use crate::value::{
    mirrored, negated, Against, BinOp, Bounds, Claim, Fact, Form, Local,
};

verus! {

/// What one side of a comparison measures the other against, with the local
/// it was read from.
#[derive(Debug, Clone, Copy, PartialEq, Eq, Structural)]
pub struct Measured {
    pub against: Against,
    pub source: Option<Local>,
}

/// Whether what is measured against is a value of its type.
pub open spec fn measured_wf(measured: Option<Measured>) -> bool {
    match measured {
        Some(m) => m.against.wf(),
        None => true,
    }
}

/// The place a branch's discriminant was read from.
#[derive(Debug, Clone, Copy, PartialEq, Eq, Structural)]
pub struct Tagged {
    pub slot: Local,
    /// The enum read.
    pub ty: Option<Type>,
}

/// The last of the first `n` statements that can change a local.
pub open spec fn last_write(stmts: Seq<Statement>, local: Local, n: nat) -> Option<nat>
    decreases n,
{
    if n == 0 {
        None
    } else if places::spec_writes(stmts[n - 1], local) {
        Some((n - 1) as nat)
    } else {
        last_write(stmts, local, (n - 1) as nat)
    }
}

fn find_write(stmts: &Vec<Statement>, local: Local) -> (r: Option<usize>)
    ensures
        match r {
            Some(at) => last_write(stmts@, local, stmts@.len()) == Some(at as nat) && at
                < stmts@.len() && at < usize::MAX,
            None => last_write(stmts@, local, stmts@.len()) is None,
        },
{
    let mut n = stmts.len();
    while n > 0
        invariant
            n <= stmts@.len(),
            last_write(stmts@, local, stmts@.len()) == last_write(stmts@, local, n as nat),
        decreases n,
    {
        if writes(&stmts[n - 1], local) {
            return Some(n - 1);
        }
        n -= 1;
    }
    None
}

/// Whether an operator compares.
pub open spec fn compares(op: BinOp) -> bool {
    value::verdict(op, 0, 0) is Some
}

fn is_comparison(op: BinOp) -> (r: bool)
    ensures
        r == compares(op),
{
    match op {
        BinOp::Eq | BinOp::Ne | BinOp::Lt | BinOp::Le | BinOp::Gt | BinOp::Ge => true,
        _ => false,
    }
}

/// A reading of a comparison, where a local was measured against something.
pub open spec fn reading(
    local: Option<Local>,
    measured: Option<Measured>,
    op: BinOp,
    arm: Option<bool>,
) -> Option<Compared> {
    match (local, measured) {
        (Some(local), Some(m)) => Some(
            Compared { op, local, against: m.against, source: m.source, arm },
        ),
        _ => None,
    }
}

/// The readings kept, with one more that is not held already.
pub open spec fn offered(found: Seq<Compared>, candidate: Option<Compared>) -> Seq<Compared> {
    match candidate {
        Some(c) => if found.contains(c) {
            found
        } else {
            found.push(c)
        },
        None => found,
    }
}

fn is_held(found: &Vec<Compared>, candidate: Compared) -> (r: bool)
    ensures
        r == found@.contains(candidate),
{
    let mut i: usize = 0;
    while i < found.len()
        invariant
            i <= found@.len(),
            forall|k: int| 0 <= k < i ==> #[trigger] found@[k] != candidate,
        decreases found@.len() - i,
    {
        if found[i] == candidate {
            return true;
        }
        i += 1;
    }
    false
}

fn offer(
    found: &mut Vec<Compared>,
    local: Option<Local>,
    measured: Option<Measured>,
    op: BinOp,
    arm: Option<bool>,
)
    requires
        state::readings_wf(old(found)@),
        measured_wf(measured),
    ensures
        final(found)@ == offered(old(found)@, reading(local, measured, op, arm)),
        state::readings_wf(final(found)@),
{
    if let (Some(local), Some(m)) = (local, measured) {
        let candidate = Compared { op, local, against: m.against, source: m.source, arm };
        if !is_held(found, candidate) {
            found.push(candidate);
        }
    }
}

/// The tags, among the first `n`, that no arm names.
pub open spec fn spare(tags: Seq<u128>, taken: Seq<u128>, n: nat) -> Seq<u128>
    decreases n,
{
    if n == 0 {
        Seq::empty()
    } else {
        let before = spare(tags, taken, (n - 1) as nat);
        if taken.contains(tags[n - 1]) {
            before
        } else {
            before.push(tags[n - 1])
        }
    }
}

/// The values some arms name.
pub open spec fn named_values(arms: Seq<Arm>) -> Seq<u128> {
    arms.map_values(|arm: Arm| arm.value)
}

/// A state once an arm has proved the tag an enum carries.
pub open spec fn tag_taught(state: Seq<Fact>, tagged: Option<Tagged>, tag: Option<u128>) -> Seq<
    Fact,
> {
    match (tagged, tag) {
        (Some(t), Some(tag)) => state::put(
            state,
            t.slot,
            Fact { tag: Some(tag), ..state::spec_held(state, t.slot) },
        ),
        _ => state,
    }
}

/// Records the tag an arm proves the enum carries.
fn teach_tag(state: &mut State, tagged: Option<Tagged>, tag: Option<u128>)
    requires
        state::sound(old(state)@),
    ensures
        final(state)@ == tag_taught(old(state)@, tagged, tag),
        state::sound(final(state)@),
{
    if let (Some(t), Some(tag)) = (tagged, tag) {
        let fact = Fact { tag: Some(tag), ..held(state, t.slot) };
        record(state, t.slot, fact);
    }
}

/// The readings that stand, among the first `n`, rewritten against the places
/// they belong to.
pub open spec fn left_standing(
    lens: Lens,
    found: Seq<Compared>,
    result: Local,
    after: Seq<Statement>,
    state: Seq<Fact>,
    n: nat,
) -> Seq<Compared>
    decreases n,
{
    if n == 0 {
        Seq::empty()
    } else {
        let before = left_standing(lens, found, result, after, state, (n - 1) as nat);
        match lens.standing(result, after, state, found[n - 1]) {
            Some(kept) => before.push(kept),
            None => before,
        }
    }
}

impl Lens {
    /// What an operand measures, when the walk can name its value.
    ///
    /// A local the walk has settled measures the same as the constant that
    /// could have been written in its place, which is how a value the caller
    /// passed in is read.
    pub open spec fn named(self, state: Seq<Fact>, operand: Operand) -> Option<Measured> {
        match operand {
            Operand::Constant(_, _) => match operand.spec_constant() {
                Some(k) => Some(Measured { against: Against::Constant(k), source: None }),
                None => None,
            },
            _ => match self.slot_read(operand) {
                Some(slot) => match self.fact(state, operand).value {
                    Some(Claim::Length(of)) => Some(
                        Measured { against: Against::Length(of), source: Some(slot) },
                    ),
                    Some(Claim::Exact(known)) => Some(
                        Measured { against: Against::Constant(known), source: Some(slot) },
                    ),
                    _ => None,
                },
                None => None,
            },
        }
    }

    /// What an operand measures, named by the place it was read from.
    ///
    /// A quantity the walk cannot settle is still one value, and a place
    /// read twice without a write in between reads the same both times.
    pub open spec fn sited(self, state: Seq<Fact>, operand: Operand) -> Option<Measured> {
        match self.slot_read(operand) {
            Some(slot) => {
                let of = state::spec_root_of(state, slot);
                if self.places.path(of) is Some {
                    Some(Measured { against: Against::Place(of), source: Some(slot) })
                } else {
                    None
                }
            },
            None => None,
        }
    }

    /// The length an operand is itself measured by.
    ///
    /// A value below one that is itself measured against a length is below
    /// that length too, which is what a pair of guards written one inside
    /// the other proves.
    pub open spec fn chained_to(self, state: Seq<Fact>, operand: Operand, op: BinOp) -> Option<
        Measured,
    > {
        if !(op is Lt || op is Le) {
            None
        } else {
            match (self.slot_read(operand), self.fact(state, operand).order.spec_first()) {
                (Some(slot), Some(rank)) => Some(
                    Measured { against: Against::Length(rank.of), source: Some(slot) },
                ),
                _ => None,
            }
        }
    }

    /// The end of an operand's range that an operator reads.
    ///
    /// A value compared against one that lies in a range is compared
    /// against whichever end of that range the operator points at: past
    /// `lo < n`, `n` is above everything `lo` could be, which for an
    /// unsigned pair is above zero.
    pub open spec fn ended(self, state: Seq<Fact>, operand: Operand, op: BinOp) -> Option<Measured> {
        match self.spread(state, operand) {
            Some(span) => {
                let source = self.slot_read(operand);
                match op {
                    BinOp::Lt | BinOp::Le => Some(
                        Measured { against: Against::Constant(span.hi), source },
                    ),
                    BinOp::Gt | BinOp::Ge => Some(
                        Measured { against: Against::Constant(span.lo), source },
                    ),
                    _ => None,
                }
            },
            None => None,
        }
    }

    /// The readings of a comparison: the locals it measures, what each is
    /// measured against, and the operator read with that local on the left.
    ///
    /// A comparison names two operands and either can be the one a claim
    /// is recorded against, so every reading of both is kept: they
    /// describe the same comparison from different sides and what one
    /// proves the others do not. Each range reading is for one arm: the end
    /// it names is the end that arm's comparison points at, and the arm where
    /// the comparison fails reads the other end of the same range.
    pub open spec fn compared(
        self,
        state: Seq<Fact>,
        op: BinOp,
        left: Operand,
        right: Operand,
    ) -> Seq<Compared> {
        let near = self.slot_read(left);
        let far = self.slot_read(right);
        let back = value::spec_mirrored(op);
        let s0 = Seq::<Compared>::empty();
        let s1 = offered(s0, reading(near, self.named(state, right), op, None));
        let s2 = offered(s1, reading(far, self.named(state, left), back, None));
        let s3 = offered(s2, reading(near, self.chained_to(state, right, op), op, None));
        let s4 = offered(s3, reading(far, self.chained_to(state, left, back), back, None));
        let s5 = offered(s4, reading(near, self.ended(state, right, op), op, Some(true)));
        let s6 = offered(s5, reading(far, self.ended(state, left, back), back, Some(true)));
        let s7 = offered(
            s6,
            reading(near, self.ended(state, right, value::spec_negated(op)), op, Some(false)),
        );
        let s8 = offered(
            s7,
            reading(far, self.ended(state, left, value::spec_negated(back)), back, Some(false)),
        );
        let s9 = offered(s8, reading(near, self.sited(state, right), op, None));
        offered(s9, reading(far, self.sited(state, left), back, None))
    }

    /// Whether a statement ends the life of a temporary that a reading does
    /// not lean on any more.
    pub open spec fn transient(
        self,
        result: Local,
        local: Local,
        measured: Compared,
        stmt: Statement,
    ) -> bool {
        let ended = match stmt {
            Statement::StorageLive(of) => Some(of),
            Statement::StorageDead(of) => Some(of),
            _ => None,
        };
        match ended {
            Some(of) => measured.source != Some(of) && measured.against != Against::Length(of) && (
            of == measured.local || of == result || of == local),
            None => false,
        }
    }

    /// Whether a statement undoes a reading.
    pub open spec fn undoes(
        self,
        result: Local,
        local: Local,
        measured: Compared,
        stmt: Statement,
    ) -> bool {
        !self.transient(result, local, measured, stmt) && (self.touches(stmt, local)
            || self.touches(stmt, measured.local) || self.touches(stmt, result) || (
        measured.source is Some && self.touches(stmt, measured.source->Some_0)) || (
        match measured.against {
            Against::Constant(_) => false,
            Against::Length(of) => self.touches(stmt, of),
            Against::Place(of) => self.touches(stmt, of),
        }))
    }

    /// The claim, rewritten against the place it belongs to, when nothing
    /// between the comparison and the branch has undone it.
    pub open spec fn standing(
        self,
        result: Local,
        after: Seq<Statement>,
        state: Seq<Fact>,
        measured: Compared,
    ) -> Option<Compared> {
        let local = state::spec_root_of(state, measured.local);
        if places::aimed_at(self.escaped, local) || exists|i: int|
            0 <= i < after.len() && #[trigger] self.undoes(result, local, measured, after[i]) {
            None
        } else {
            Some(Compared { local, ..measured })
        }
    }

    /// The comparison that produced a boolean a branch reads.
    pub open spec fn comparison_behind(
        self,
        stmts: Seq<Statement>,
        result: Local,
        state: Seq<Fact>,
    ) -> Seq<Compared> {
        match last_write(stmts, result, stmts.len()) {
            Some(at) => match stmts[at as int] {
                Statement::Assign(place, Rvalue::Binary(op, left, right)) => if place.spec_as_local()
                    == Some(result) && compares(op) {
                    let found = self.compared(state, op, left, right);
                    left_standing(self, found, result, stmts.skip(at as int + 1), state, found.len())
                } else {
                    Seq::empty()
                },
                _ => Seq::empty(),
            },
            None => Seq::empty(),
        }
    }

    /// What a branch reads, when an arm of it proves something.
    pub open spec fn subject_of(
        self,
        stmts: Seq<Statement>,
        discr: Operand,
        state: Seq<Fact>,
    ) -> Option<SubjectView> {
        match (self.source_of(state, discr), discr.spec_ty(self.program)) {
            (Some(read), Some(ty)) => match ty.spec_seed() {
                Some(seed) => Some(
                    SubjectView {
                        read,
                        seed,
                        compared: if seed.ty.form is Bool {
                            self.comparison_behind(stmts, read, state)
                        } else {
                            Seq::empty()
                        },
                    },
                ),
                None => None,
            },
            _ => None,
        }
    }

    /// The place a branch's discriminant was read from.
    ///
    /// The reading may not be undone before the branch, so what the arm
    /// proves is about the value it branched on.
    pub open spec fn tagged(self, stmts: Seq<Statement>, discr: Operand, state: Seq<Fact>) -> Option<
        Tagged,
    > {
        match discr {
            Operand::Read(place, _) => match place.spec_as_local() {
                Some(read) => match last_write(stmts, read, stmts.len()) {
                    Some(at) => self.tag_read_at(stmts, read, at, state),
                    None => None,
                },
                None => None,
            },
            _ => None,
        }
    }

    /// The place a discriminant was read from by one statement.
    pub open spec fn tag_read_at(
        self,
        stmts: Seq<Statement>,
        read: Local,
        at: nat,
        state: Seq<Fact>,
    ) -> Option<Tagged> {
        match stmts[at as int] {
            Statement::Assign(place, Rvalue::Discriminant(of)) => match self.slot_of(of) {
                Some(slot) => if place.spec_as_local() == Some(read) && self.program.spec_enum_of(
                    of.ty,
                ) is Some && !self.touched(stmts, at as int + 1, read, slot) {
                    Some(Tagged { slot: state::spec_root_of(state, slot), ty: of.ty })
                } else {
                    None
                },
                None => None,
            },
            _ => None,
        }
    }

    /// Whether one of the statements from a position on can change one of two
    /// slots.
    pub open spec fn touched(self, stmts: Seq<Statement>, from: int, one: Local, two: Local) -> bool {
        exists|i: int|
            from <= i < stmts.len() && #[trigger] self.touches_either(stmts[i], one, two)
    }

    /// Whether a statement can change one of two slots.
    pub open spec fn touches_either(self, stmt: Statement, one: Local, two: Local) -> bool {
        self.touches(stmt, one) || self.touches(stmt, two)
    }

    /// The one tag a fallback arm proves, when every other is named.
    pub open spec fn leftover(self, tagged: Option<Tagged>, taken: Seq<u128>) -> Option<u128> {
        match tagged {
            Some(t) => match self.program.spec_enum_of(t.ty) {
                Some(e) => {
                    let left = spare(e.tags@, taken, e.tags@.len());
                    if left.len() == 1 {
                        Some(left[0])
                    } else {
                        None
                    }
                },
                None => None,
            },
            None => None,
        }
    }

    /// Whether the arms name every value the condition can hold.
    ///
    /// A value narrowed to a range, by a mask or by arithmetic, reaches the
    /// fallback arm only through a value outside that range. The arms are
    /// read as bit patterns, which is how they are written, and a range
    /// starting below zero is left alone rather than reasoned about in the
    /// wrong order.
    pub open spec fn covered(self, state: Seq<Fact>, discr: Operand, taken: Seq<u128>) -> bool {
        match self.spread(state, discr) {
            Some(span) => covers_range(span, taken),
            None => false,
        }
    }
}

/// Whether some values are all those of a range, which starts at zero or above
/// it.
pub open spec fn covers_range(span: Bounds, taken: Seq<u128>) -> bool {
    &&& span.lo.val() >= 0
    &&& span.hi.bits - span.lo.bits + 1 <= taken.len()
    &&& forall|v: u128| span.lo.bits <= v <= span.hi.bits ==> #[trigger] taken.contains(v)
}

fn range_covered(span: Bounds, taken: &Vec<u128>) -> (r: bool)
    requires
        span.wf(),
    ensures
        r == covers_range(span, taken@),
{
    if !span.lo.nonnegative() {
        return false;
    }
    proof {
        span.lo.stands();
        span.hi.stands();
    }
    let width: u128 = span.hi.bits - span.lo.bits;
    let n: usize = taken.len();
    if width >= n as u128 {
        return false;
    }
    let mut step: u128 = 0;
    while step <= width
        invariant
            width == span.hi.bits - span.lo.bits,
            width < n,
            n == taken@.len(),
            span.lo.val() >= 0,
            step <= width + 1,
            forall|v: u128|
                span.lo.bits <= v < span.lo.bits + step ==> #[trigger] taken@.contains(v),
        decreases width + 1 - step,
    {
        let value: u128 = span.lo.bits + step;
        if !tagged_so(taken, value) {
            return false;
        }
        step += 1;
    }
    true
}

impl<'a> Scope<'a> {
    fn named(&self, state: &State, operand: &Operand) -> (r: Option<Measured>)
        requires
            self@.wf(),
            state::sound(state@),
        ensures
            r == self@.named(state@, *operand),
            measured_wf(r),
    {
        match operand {
            Operand::Constant(_, _) => match operand.constant() {
                Some(k) => Some(Measured { against: Against::Constant(k), source: None }),
                None => None,
            },
            _ => match self.slot_read(operand) {
                Some(slot) => match self.fact(state, operand).value {
                    Some(Claim::Length(of)) => Some(
                        Measured { against: Against::Length(of), source: Some(slot) },
                    ),
                    Some(Claim::Exact(known)) => Some(
                        Measured { against: Against::Constant(known), source: Some(slot) },
                    ),
                    _ => None,
                },
                None => None,
            },
        }
    }

    fn sited(&self, state: &State, operand: &Operand) -> (r: Option<Measured>)
        requires
            self@.wf(),
        ensures
            r == self@.sited(state@, *operand),
            measured_wf(r),
    {
        match self.slot_read(operand) {
            Some(slot) => {
                let of = root_of(state, slot);
                if self.places.path(of).is_some() {
                    Some(Measured { against: Against::Place(of), source: Some(slot) })
                } else {
                    None
                }
            },
            None => None,
        }
    }

    fn chained_to(&self, state: &State, operand: &Operand, op: BinOp) -> (r: Option<Measured>)
        requires
            self@.wf(),
            state::sound(state@),
        ensures
            r == self@.chained_to(state@, *operand, op),
            measured_wf(r),
    {
        if op != BinOp::Lt && op != BinOp::Le {
            return None;
        }
        match (self.slot_read(operand), self.fact(state, operand).order.first()) {
            (Some(slot), Some(rank)) => Some(
                Measured { against: Against::Length(rank.of), source: Some(slot) },
            ),
            _ => None,
        }
    }

    fn ended(&self, state: &State, operand: &Operand, op: BinOp) -> (r: Option<Measured>)
        requires
            self@.wf(),
            state::sound(state@),
        ensures
            r == self@.ended(state@, *operand, op),
            measured_wf(r),
    {
        match self.spread(state, operand) {
            Some(span) => {
                let source = self.slot_read(operand);
                match op {
                    BinOp::Lt | BinOp::Le => Some(
                        Measured { against: Against::Constant(span.hi), source },
                    ),
                    BinOp::Gt | BinOp::Ge => Some(
                        Measured { against: Against::Constant(span.lo), source },
                    ),
                    _ => None,
                }
            },
            None => None,
        }
    }

    /// Splits a comparison into the locals it measures, what each is
    /// measured against, and the operator read with that local on the left.
    ///
    /// Two claims come out of one comparison where the operands carry
    /// different kinds of fact: one side settled against a constant, and
    /// the other ordered against a length it was already measured by. Both
    /// hold on the arm, and a loop that proves the first on its way in
    /// needs the second to survive where its arms meet.
    fn compared(&self, state: &State, op: BinOp, left: &Operand, right: &Operand) -> (r: Vec<
        Compared,
    >)
        requires
            self@.wf(),
            state::sound(state@),
        ensures
            r@ == self@.compared(state@, op, *left, *right),
            state::readings_wf(r@),
    {
        let near = self.slot_read(left);
        let far = self.slot_read(right);
        let back = mirrored(op);
        let mut found: Vec<Compared> = Vec::new();
        offer(&mut found, near, self.named(state, right), op, None);
        offer(&mut found, far, self.named(state, left), back, None);
        offer(&mut found, near, self.chained_to(state, right, op), op, None);
        offer(&mut found, far, self.chained_to(state, left, back), back, None);
        offer(&mut found, near, self.ended(state, right, op), op, Some(true));
        offer(&mut found, far, self.ended(state, left, back), back, Some(true));
        offer(&mut found, near, self.ended(state, right, negated(op)), op, Some(false));
        offer(&mut found, far, self.ended(state, left, negated(back)), back, Some(false));
        offer(&mut found, near, self.sited(state, right), op, None);
        offer(&mut found, far, self.sited(state, left), back, None);
        found
    }

    fn transient(&self, result: Local, local: Local, measured: Compared, stmt: &Statement) -> (r:
        bool)
        ensures
            r == self@.transient(result, local, measured, *stmt),
    {
        let ended = match stmt {
            Statement::StorageLive(of) => Some(*of),
            Statement::StorageDead(of) => Some(*of),
            _ => None,
        };
        match ended {
            Some(of) => measured.source != Some(of) && measured.against != Against::Length(of) && (
            of == measured.local || of == result || of == local),
            None => false,
        }
    }

    fn undoes(&self, result: Local, local: Local, measured: Compared, stmt: &Statement) -> (r: bool)
        ensures
            r == self@.undoes(result, local, measured, *stmt),
    {
        if self.transient(result, local, measured, stmt) {
            return false;
        }
        if self.touches(stmt, local) || self.touches(stmt, measured.local) || self.touches(
            stmt,
            result,
        ) {
            return true;
        }
        if let Some(source) = measured.source {
            if self.touches(stmt, source) {
                return true;
            }
        }
        match measured.against {
            Against::Constant(_) => false,
            Against::Length(of) => self.touches(stmt, of),
            Against::Place(of) => self.touches(stmt, of),
        }
    }

    /// The claim, rewritten against the place it belongs to, when nothing
    /// between the comparison and the branch has undone it.
    ///
    /// The facts read at the branch have to be the ones that stood when the
    /// comparison ran, so nothing it involved may change in between. Ending
    /// the life of the temporary that was compared, or of the boolean it
    /// produced, is not such a change: the claim is recorded against the
    /// place behind them, which outlives both.
    fn standing(
        &self,
        result: Local,
        stmts: &Vec<Statement>,
        from: usize,
        state: &State,
        measured: Compared,
    ) -> (r: Option<Compared>)
        requires
            from <= stmts@.len(),
        ensures
            r == self@.standing(result, stmts@.skip(from as int), state@, measured),
            match r {
                Some(kept) => kept.against == measured.against,
                None => true,
            },
    {
        let local = root_of(state, measured.local);
        if self.escapes(local) {
            return None;
        }
        let ghost after = stmts@.skip(from as int);
        let mut i: usize = from;
        while i < stmts.len()
            invariant
                from <= i <= stmts@.len(),
                after == stmts@.skip(from as int),
                local == state::spec_root_of(state@, measured.local),
                forall|k: int|
                    0 <= k < i - from ==> !#[trigger] self@.undoes(
                        result,
                        local,
                        measured,
                        after[k],
                    ),
            decreases stmts@.len() - i,
        {
            assert(stmts@[i as int] == after[i - from]);
            if self.undoes(result, local, measured, &stmts[i]) {
                assert(self@.undoes(result, local, measured, after[i - from]));
                return None;
            }
            i += 1;
        }
        Some(Compared { local, ..measured })
    }

    fn comparison_behind(&self, stmts: &Vec<Statement>, result: Local, state: &State) -> (r: Vec<
        Compared,
    >)
        requires
            self@.wf(),
            state::sound(state@),
        ensures
            r@ == self@.comparison_behind(stmts@, result, state@),
            state::readings_wf(r@),
    {
        let mut kept: Vec<Compared> = Vec::new();
        let at = match find_write(stmts, result) {
            Some(at) => at,
            None => {
                return kept;
            },
        };
        if let Statement::Assign(place, Rvalue::Binary(op, left, right)) = &stmts[at] {
            if place.as_local() == Some(result) && is_comparison(*op) {
                let found = self.compared(state, *op, left, right);
                let ghost after = stmts@.skip(at + 1);
                let mut i: usize = 0;
                while i < found.len()
                    invariant
                        i <= found@.len(),
                        at < stmts@.len(),
                        at < usize::MAX,
                        after == stmts@.skip(at + 1),
                        state::readings_wf(found@),
                        state::readings_wf(kept@),
                        kept@ == left_standing(self@, found@, result, after, state@, i as nat),
                    decreases found@.len() - i,
                {
                    assert(found@[i as int].against.wf());
                    if let Some(one) = self.standing(result, stmts, at + 1, state, found[i]) {
                        kept.push(one);
                    }
                    i += 1;
                }
            }
        }
        kept
    }

    /// What a branch reads, when an arm of it proves something.
    pub fn subject_of(&self, stmts: &Vec<Statement>, discr: &Operand, state: &State) -> (r: Option<
        Subject,
    >)
        requires
            self@.wf(),
            state::sound(state@),
        ensures
            state::subject_view(r) == self@.subject_of(stmts@, *discr, state@),
            match r {
                Some(s) => s@.wf(),
                None => true,
            },
    {
        match (self.source_of(state, discr), discr.ty(self.program)) {
            (Some(read), Some(ty)) => match ty.seed() {
                Some(seed) => {
                    let compared = if seed.ty.form == Form::Bool {
                        self.comparison_behind(stmts, read, state)
                    } else {
                        Vec::new()
                    };
                    Some(Subject { read, seed, compared })
                },
                None => None,
            },
            _ => None,
        }
    }

    fn touched(&self, stmts: &Vec<Statement>, from: usize, one: Local, two: Local) -> (r: bool)
        requires
            from <= stmts@.len(),
        ensures
            r == self@.touched(stmts@, from as int, one, two),
    {
        let mut i: usize = from;
        while i < stmts.len()
            invariant
                from <= i <= stmts@.len(),
                forall|k: int|
                    from <= k < i ==> !#[trigger] self@.touches_either(stmts@[k], one, two),
            decreases stmts@.len() - i,
        {
            if self.touches(&stmts[i], one) || self.touches(&stmts[i], two) {
                assert(self@.touches_either(stmts@[i as int], one, two));
                return true;
            }
            i += 1;
        }
        false
    }

    /// The place a branch's discriminant was read from.
    fn tagged(&self, stmts: &Vec<Statement>, discr: &Operand, state: &State) -> (r: Option<Tagged>)
        requires
            self@.wf(),
        ensures
            r == self@.tagged(stmts@, *discr, state@),
    {
        let read = match discr {
            Operand::Read(place, _) => match place.as_local() {
                Some(read) => read,
                None => {
                    return None;
                },
            },
            _ => {
                return None;
            },
        };
        let at = match find_write(stmts, read) {
            Some(at) => at,
            None => {
                return None;
            },
        };
        if let Statement::Assign(place, Rvalue::Discriminant(of)) = &stmts[at] {
            match self.slot_of(of) {
                Some(slot) => if place.as_local() == Some(read) && self.program.enum_of(
                    of.ty,
                ).is_some() && !self.touched(stmts, at + 1, read, slot) {
                    Some(Tagged { slot: root_of(state, slot), ty: of.ty })
                } else {
                    None
                },
                None => None,
            }
        } else {
            None
        }
    }

    /// The one tag a fallback arm proves, when every other is named.
    fn leftover(&self, tagged: Option<Tagged>, taken: &Vec<u128>) -> (r: Option<u128>)
        ensures
            r == self@.leftover(tagged, taken@),
    {
        let t = match tagged {
            Some(t) => t,
            None => {
                return None;
            },
        };
        match self.program.enum_of(t.ty) {
            Some(e) => {
                let mut left: Vec<u128> = Vec::new();
                let mut i: usize = 0;
                while i < e.tags.len()
                    invariant
                        i <= e.tags@.len(),
                        left@ == spare(e.tags@, taken@, i as nat),
                    decreases e.tags@.len() - i,
                {
                    if !tagged_so(taken, e.tags[i]) {
                        left.push(e.tags[i]);
                    }
                    i += 1;
                }
                if left.len() == 1 {
                    Some(left[0])
                } else {
                    None
                }
            },
            None => None,
        }
    }

    fn covered(&self, state: &State, discr: &Operand, taken: &Vec<u128>) -> (r: bool)
        requires
            self@.wf(),
            state::sound(state@),
        ensures
            r == self@.covered(state@, *discr, taken@),
    {
        match self.spread(state, discr) {
            Some(span) => range_covered(span, taken),
            None => false,
        }
    }
}

impl Lens {
    /// The state one named arm of a branch is entered with.
    pub open spec fn arm_state(
        self,
        stmts: Seq<Statement>,
        discr: Operand,
        state: Seq<Fact>,
        value: u128,
    ) -> Seq<Fact> {
        tag_taught(
            state::spec_refined(state, self.subject_of(stmts, discr, state), Some(value), true),
            self.tagged(stmts, discr, state),
            Some(value),
        )
    }

    /// The agenda once the first `n` named arms of a branch are followed.
    pub open spec fn arms_followed(
        self,
        stmts: Seq<Statement>,
        discr: Operand,
        arms: Seq<Arm>,
        state: Seq<Fact>,
        agenda: state::Agenda,
        marks: Seq<u128>,
        n: nat,
    ) -> state::Agenda
        decreases n,
    {
        if n == 0 {
            agenda
        } else {
            let before = self.arms_followed(
                stmts,
                discr,
                arms,
                state,
                agenda,
                marks,
                (n - 1) as nat,
            );
            let arm = arms[n - 1];
            if self.rules_out(state, discr, arm.value) {
                before
            } else {
                before.merged(arm.target, self.arm_state(stmts, discr, state, arm.value), marks)
            }
        }
    }

    /// Whether a settled condition rules an arm out.
    pub open spec fn rules_out(self, state: Seq<Fact>, discr: Operand, value: u128) -> bool {
        match value::spec_pinned(self.fact(state, discr)) {
            Some(known) => known.bits != value,
            None => false,
        }
    }

    /// Whether a settled condition takes one of the named arms.
    pub open spec fn takes_named(self, state: Seq<Fact>, discr: Operand, arms: Seq<Arm>) -> bool {
        match value::spec_pinned(self.fact(state, discr)) {
            Some(known) => named_values(arms).contains(known.bits),
            None => false,
        }
    }

    /// The agenda once a branch is followed into each of its arms.
    ///
    /// The fallback covers every value not listed, so it settles the
    /// condition only when one value is left over.
    pub open spec fn branched(
        self,
        stmts: Seq<Statement>,
        discr: Operand,
        arms: Seq<Arm>,
        otherwise: usize,
        state: Seq<Fact>,
        agenda: state::Agenda,
        marks: Seq<u128>,
    ) -> state::Agenda {
        let named = self.arms_followed(stmts, discr, arms, state, agenda, marks, arms.len());
        let taken = named_values(arms);
        if self.takes_named(state, discr, arms) || self.covered(state, discr, taken) {
            named
        } else {
            let rest = if taken.len() == 1 {
                Some(taken[0])
            } else {
                None
            };
            let tagged = self.tagged(stmts, discr, state);
            named.merged(
                otherwise,
                tag_taught(
                    state::spec_refined(state, self.subject_of(stmts, discr, state), rest, false),
                    tagged,
                    self.leftover(tagged, taken),
                ),
                marks,
            )
        }
    }
}

impl<'a> Scope<'a> {
    /// Follows a branch into each of its arms, carrying what taking that
    /// arm proves.
    ///
    /// A settled condition rules the other arms out; it does not make
    /// the arm it does take teach any less. A first turn of a loop that
    /// settles the guard has to leave the same claim behind as the
    /// turns after it, or what the two agree on is nothing. A branch whose
    /// arms already name every value the condition can hold leaves the
    /// fallback nothing to cover.
    pub fn branched(
        &self,
        stmts: &Vec<Statement>,
        discr: &Operand,
        arms: &Vec<Arm>,
        otherwise: usize,
        state: &State,
        work: &mut Work,
    )
        requires
            self@.wf(),
            state::sound(state@),
            old(work)@.wf(),
        ensures
            final(work)@ == self@.branched(
                stmts@,
                *discr,
                arms@,
                otherwise,
                state@,
                old(work)@,
                old(work).marks(),
            ),
            final(work)@.wf(),
            final(work).marks() == old(work).marks(),
            final(work)@.entry.len() == old(work)@.entry.len(),
            edges::all_sound(self@.branch_sent(stmts@, *discr, arms@, otherwise, state@)),
    {
        let settled = self.exact(state, discr);
        let subject = self.subject_of(stmts, discr, state);
        let tagged = self.tagged(stmts, discr, state);
        let ghost was = work@;
        let ghost marks = work.marks();
        let ghost blocks = work@.entry.len();
        let mut taken: Vec<u128> = Vec::new();
        let mut named = false;
        let mut i: usize = 0;
        while i < arms.len()
            invariant
                self@.wf(),
                state::sound(state@),
                work@.wf(),
                work.marks() == marks,
                work@.entry.len() == blocks,
                i <= arms@.len(),
                settled == value::spec_pinned(self@.fact(state@, *discr)),
                state::subject_view(subject) == self@.subject_of(stmts@, *discr, state@),
                match subject {
                    Some(s) => s@.wf(),
                    None => true,
                },
                tagged == self@.tagged(stmts@, *discr, state@),
                taken@ == named_values(arms@).take(i as int),
                named == (settled is Some && taken@.contains(settled->Some_0.bits)),
                work@ == self@.arms_followed(
                    stmts@,
                    *discr,
                    arms@,
                    state@,
                    was,
                    marks,
                    i as nat,
                ),
                edges::all_sound(self@.arms_sent(stmts@, *discr, arms@, state@, i as nat)),
            decreases arms@.len() - i,
        {
            let arm = arms[i];
            let ghost before = taken@;
            taken.push(arm.value);
            proof {
                assert(taken@ =~= named_values(arms@).take(i + 1));
                assert forall|v: u128| taken@.contains(v) == (before.contains(v) || v
                    == arm.value) by {
                    if before.contains(v) {
                        let k = choose|k: int| 0 <= k < before.len() && before[k] == v;
                        assert(taken@[k] == v);
                    }
                    if v == arm.value {
                        assert(taken@[before.len() as int] == v);
                    }
                    if taken@.contains(v) {
                        let k = choose|k: int| 0 <= k < taken@.len() && taken@[k] == v;
                        if k < before.len() {
                            assert(before[k] == v);
                        }
                    }
                }
            }
            let skip = match settled {
                Some(known) => known.bits != arm.value,
                None => false,
            };
            if !skip {
                if settled.is_some() {
                    named = true;
                }
                let mut next = refined(state, &subject, Some(arm.value), true);
                teach_tag(&mut next, tagged, Some(arm.value));
                work.merge(arm.target, next);
            }
            i += 1;
        }
        assert(taken@ =~= named_values(arms@));
        if named || self.covered(state, discr, &taken) {
            return;
        }
        let rest = if taken.len() == 1 {
            Some(taken[0])
        } else {
            None
        };
        let mut next = refined(state, &subject, rest, false);
        let tag = self.leftover(tagged, &taken);
        teach_tag(&mut next, tagged, tag);
        work.merge(otherwise, next);
    }
}

} // verus!
