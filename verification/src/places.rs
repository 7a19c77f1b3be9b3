//! The places a body is tracked at, and what a write to one reaches.
//!
//! A field read twice is two locals and one place, and it is the place the
//! claim belongs to: what a guard proves about the first read has to be
//! there for the second.

use vstd::prelude::*;

use crate::mir::{Block, Build, Function, Operand, Place, Rvalue, Statement, Step, Terminator};
use crate::state;
use crate::state::{forget, State};
use crate::value::{Fact, Local};

verus! {

/// How far from a local a tracked place may sit.
pub const REACH: usize = 3;

/// How many places one body may be tracked at.
///
/// Every slot costs a claim in every block's entry state, so the table is
/// capped rather than following a body wherever it goes.
pub const TRACKED: usize = 32;

/// A place the walk records claims against.
#[derive(Debug, Clone, Copy, PartialEq, Eq, Structural)]
pub struct Path {
    /// The local the place is reached from.
    pub base: Local,
    /// The steps from there, nearest first.
    pub one: Option<Step>,
    pub two: Option<Step>,
    pub three: Option<Step>,
}

/// One of the steps of a place.
pub open spec fn nth(steps: Seq<Step>, i: int) -> Option<Step> {
    if i < steps.len() {
        Some(steps[i])
    } else {
        None
    }
}

/// Whether every step is one the walk can name.
pub open spec fn nameable(steps: Seq<Step>) -> bool {
    forall|i: int| 0 <= i < steps.len() ==> !((#[trigger] steps[i]) is Opaque)
}

impl Path {
    /// The place some steps from a local, when it is one this walk can name.
    pub open spec fn spec_from(base: Local, steps: Seq<Step>) -> Option<Path> {
        if steps.len() == 0 || steps.len() > REACH || !nameable(steps) {
            None
        } else {
            Some(Path { base, one: nth(steps, 0), two: nth(steps, 1), three: nth(steps, 2) })
        }
    }

    fn from(base: Local, steps: &Vec<Step>) -> (r: Option<Path>)
        ensures
            r == Path::spec_from(base, steps@),
    {
        let n = steps.len();
        if n == 0 || n > REACH {
            return None;
        }
        let mut i: usize = 0;
        while i < n
            invariant
                n == steps@.len(),
                i <= n,
                forall|k: int| 0 <= k < i ==> !((#[trigger] steps@[k]) is Opaque),
            decreases n - i,
        {
            if steps[i] == Step::Opaque {
                assert(!nameable(steps@)) by {
                    assert(steps@[i as int] is Opaque);
                }
                return None;
            }
            i += 1;
        }
        let two = if n > 1 {
            Some(steps[1])
        } else {
            None
        };
        let three = if n > 2 {
            Some(steps[2])
        } else {
            None
        };
        Some(Path { base, one: Some(steps[0]), two, three })
    }

    /// The place, when it is one this walk can name.
    ///
    /// A subslice or a cast is not a place this walk can tell apart from
    /// another.
    pub open spec fn spec_of(place: Place) -> Option<Path> {
        Path::spec_from(place.local, place.steps@)
    }

    /// The place, when it is one this walk can name.
    pub fn of(place: &Place) -> (r: Option<Path>)
        ensures
            r == Path::spec_of(*place),
    {
        Path::from(place.local, &place.steps)
    }

    /// The steps to one field of an aggregate.
    pub open spec fn into(steps: Seq<Step>, variant: Option<u32>, field: u32) -> Seq<Step> {
        match variant {
            Some(at) => steps.push(Step::Variant(at)).push(Step::Field(field)),
            None => steps.push(Step::Field(field)),
        }
    }

    /// The place one field of an aggregate written to a place sits at.
    pub open spec fn spec_under(place: Place, variant: Option<u32>, field: u32) -> Option<Path> {
        Path::spec_from(place.local, Path::into(place.steps@, variant, field))
    }

    /// The place one field of an aggregate written to `place` sits at.
    ///
    /// A constructor names the fields it fills without reading them back,
    /// so the walk would have no slot for them otherwise, and a value
    /// handed over inside a structure would be lost at the constructor.
    pub fn under(place: &Place, variant: Option<u32>, field: u32) -> (r: Option<Path>)
        ensures
            r == Path::spec_under(*place, variant, field),
    {
        let mut steps = place.steps.clone();
        assert(steps@ =~= place.steps@);
        if let Some(at) = variant {
            steps.push(Step::Variant(at));
        }
        steps.push(Step::Field(field));
        Path::from(place.local, &steps)
    }

    /// The same place, read from another local.
    ///
    /// A field of an argument is a field of the parameter it becomes, and
    /// a field of a returned structure is a field of the place the caller
    /// put it in, which is what carries a claim across a call.
    pub fn rebased(self, base: Local) -> (r: Path)
        ensures
            r == (Path { base, ..self }),
    {
        Path { base, ..self }
    }

    /// Whether one of the steps is a given one.
    pub open spec fn takes(self, step: Step) -> bool {
        self.one == Some(step) || self.two == Some(step) || self.three == Some(step)
    }

    /// Whether the place is reached through a pointer, so a write through
    /// any pointer could land on it.
    pub fn behind_pointer(self) -> (r: bool)
        ensures
            r == self.takes(Step::Deref),
    {
        self.one == Some(Step::Deref) || self.two == Some(Step::Deref) || self.three == Some(
            Step::Deref,
        )
    }

    /// Whether a local decides which element the place is.
    pub fn indexed_by(self, local: Local) -> (r: bool)
        ensures
            r == self.takes(Step::At(local)),
    {
        self.one == Some(Step::At(local)) || self.two == Some(Step::At(local)) || self.three
            == Some(Step::At(local))
    }

    /// Whether the place means the same thing in another body.
    pub open spec fn spec_portable(self) -> bool {
        !indexes(self.one) && !indexes(self.two) && !indexes(self.three)
    }

    /// Whether the place means the same thing in another body.
    ///
    /// An index names a local of the body it was read in, so a place that
    /// carries one describes nothing anywhere else.
    pub fn portable(self) -> (r: bool)
        ensures
            r == self.spec_portable(),
    {
        !names_index(self.one) && !names_index(self.two) && !names_index(self.three)
    }
}

/// Whether a step is decided by a local.
pub open spec fn indexes(step: Option<Step>) -> bool {
    match step {
        Some(Step::At(_)) => true,
        _ => false,
    }
}

fn names_index(step: Option<Step>) -> (r: bool)
    ensures
        r == indexes(step),
{
    match step {
        Some(Step::At(_)) => true,
        _ => false,
    }
}

/// The places found, with one more, up to the table's size.
pub open spec fn noted(found: Seq<Path>, path: Option<Path>) -> Seq<Path> {
    match path {
        Some(p) => if found.len() >= TRACKED || found.contains(p) {
            found
        } else {
            found.push(p)
        },
        None => found,
    }
}

/// The places found, with that of an operand.
pub open spec fn with_operand(found: Seq<Path>, operand: Operand) -> Seq<Path> {
    match operand {
        Operand::Read(place, _) => noted(found, Path::spec_of(place)),
        _ => found,
    }
}

/// The places found, with those of the first `n` of some operands.
pub open spec fn with_operands(found: Seq<Path>, operands: Seq<Operand>, n: nat) -> Seq<Path>
    decreases n,
{
    if n == 0 {
        found
    } else {
        with_operand(with_operands(found, operands, (n - 1) as nat), operands[n - 1])
    }
}

/// The places found, with the first `n` fields an aggregate fills.
pub open spec fn with_fields(found: Seq<Path>, place: Place, variant: Option<u32>, n: nat) -> Seq<
    Path,
>
    decreases n,
{
    if n == 0 {
        found
    } else {
        noted(
            with_fields(found, place, variant, (n - 1) as nat),
            Path::spec_under(place, variant, (n - 1) as u32),
        )
    }
}

/// The places found, with those an assignment reads.
pub open spec fn with_rvalue(found: Seq<Path>, rvalue: Rvalue) -> Seq<Path> {
    match rvalue {
        Rvalue::Use(operand) => with_operand(found, operand),
        Rvalue::IntCast(operand, _) => with_operand(found, operand),
        Rvalue::Reinterpret(operand, _) => with_operand(found, operand),
        Rvalue::Unsize(operand) => with_operand(found, operand),
        Rvalue::Binary(_, left, right) => with_operand(with_operand(found, left), right),
        Rvalue::Not(operand) => with_operand(found, operand),
        Rvalue::Metadata(operand) => with_operand(found, operand),
        Rvalue::Address(place, _, _) => noted(found, Path::spec_of(place)),
        Rvalue::Discriminant(place) => noted(found, Path::spec_of(place)),
        Rvalue::Aggregate(_, fields) => with_operands(found, fields@, fields@.len()),
        Rvalue::Other(operands) => with_operands(found, operands@, operands@.len()),
    }
}

/// The variant an aggregate fills the fields of, if it has fields that can be
/// told apart.
pub open spec fn spec_variant_built(build: Build) -> Option<Option<u32>> {
    match build {
        Build::Tuple => Some(None),
        Build::Struct => Some(None),
        Build::Variant(at, _) => Some(Some(at)),
        _ => None,
    }
}

/// The variant an aggregate fills the fields of, if it has fields that can be
/// told apart.
pub fn variant_built(build: Build) -> (r: Option<Option<u32>>)
    ensures
        r == spec_variant_built(build),
{
    match build {
        Build::Tuple => Some(None),
        Build::Struct => Some(None),
        Build::Variant(at, _) => Some(Some(at)),
        _ => None,
    }
}

/// The places found, with those of a statement.
pub open spec fn with_statement(found: Seq<Path>, stmt: Statement) -> Seq<Path> {
    match stmt {
        Statement::Assign(place, rvalue) => {
            let read = with_rvalue(noted(found, Path::spec_of(place)), rvalue);
            match rvalue {
                Rvalue::Aggregate(build, fields) => match spec_variant_built(build) {
                    Some(variant) => with_fields(read, place, variant, fields@.len()),
                    None => read,
                },
                _ => read,
            }
        },
        Statement::SetDiscriminant(place, _) => noted(found, Path::spec_of(place)),
        Statement::Mention(place) => noted(found, Path::spec_of(place)),
        Statement::Assume(operand) => with_operand(found, operand),
        Statement::Copy(operands) => with_operands(found, operands@, operands@.len()),
        _ => found,
    }
}

/// The places found, with those of the first `n` of some statements.
pub open spec fn with_statements(found: Seq<Path>, stmts: Seq<Statement>, n: nat) -> Seq<Path>
    decreases n,
{
    if n == 0 {
        found
    } else {
        with_statement(with_statements(found, stmts, (n - 1) as nat), stmts[n - 1])
    }
}

/// The places found, with those of a terminator.
pub open spec fn with_terminator(found: Seq<Path>, term: Terminator) -> Seq<Path> {
    match term {
        Terminator::Switch(discr, _, _) => with_operand(found, discr),
        Terminator::Assert(check) => with_operands(
            with_operand(found, check.cond),
            check.message@,
            check.message@.len(),
        ),
        Terminator::Call(call) => {
            let func = match call.func {
                Some(place) => noted(found, Path::spec_of(place)),
                None => found,
            };
            noted(
                with_operands(func, call.args@, call.args@.len()),
                Path::spec_of(call.destination),
            )
        },
        Terminator::Drop(place, _, _, _) => noted(found, Path::spec_of(place)),
        Terminator::TailCall(operands) => with_operands(found, operands@, operands@.len()),
        _ => found,
    }
}

/// The places found, with those of the first `n` of some blocks.
pub open spec fn with_blocks(found: Seq<Path>, blocks: Seq<Block>, n: nat) -> Seq<Path>
    decreases n,
{
    if n == 0 {
        found
    } else {
        let block = blocks[n - 1];
        let inside = with_statements(
            with_blocks(found, blocks, (n - 1) as nat),
            block.statements@,
            block.statements@.len(),
        );
        match block.terminator {
            Some(term) => with_terminator(inside, term),
            None => inside,
        }
    }
}

/// The places found, with the first `n` of some places.
pub open spec fn with_places(found: Seq<Path>, places: Seq<Place>, n: nat) -> Seq<Path>
    decreases n,
{
    if n == 0 {
        found
    } else {
        noted(with_places(found, places, (n - 1) as nat), Path::spec_of(places[n - 1]))
    }
}

/// The places a body reads or writes, and those of the fields its
/// constructors fill, since a field written and never read here is still one
/// a caller or a callee reads.
pub open spec fn watched(function: Function) -> Seq<Path> {
    with_places(
        with_blocks(Seq::empty(), function.blocks@, function.blocks@.len()),
        function.named@,
        function.named@.len(),
    )
}

fn position(paths: &Vec<Path>, path: Path) -> (r: Option<usize>)
    ensures
        match r {
            Some(at) => at < paths@.len() && paths@[at as int] == path && forall|k: int|
                0 <= k < at ==> #[trigger] paths@[k] != path,
            None => !paths@.contains(path),
        },
{
    let mut i: usize = 0;
    while i < paths.len()
        invariant
            i <= paths@.len(),
            forall|k: int| 0 <= k < i ==> #[trigger] paths@[k] != path,
        decreases paths@.len() - i,
    {
        if paths[i] == path {
            return Some(i);
        }
        i += 1;
    }
    None
}

fn note(found: &mut Vec<Path>, path: Option<Path>)
    ensures
        final(found)@ == noted(old(found)@, path),
{
    if let Some(p) = path {
        if found.len() < TRACKED && position(found, p).is_none() {
            found.push(p);
        }
    }
}

fn note_operand(found: &mut Vec<Path>, operand: &Operand)
    ensures
        final(found)@ == with_operand(old(found)@, *operand),
{
    if let Operand::Read(place, _) = operand {
        note(found, Path::of(place));
    }
}

fn note_operands(found: &mut Vec<Path>, operands: &Vec<Operand>)
    ensures
        final(found)@ == with_operands(old(found)@, operands@, operands@.len()),
{
    let ghost was = found@;
    let mut i: usize = 0;
    while i < operands.len()
        invariant
            i <= operands@.len(),
            found@ == with_operands(was, operands@, i as nat),
        decreases operands@.len() - i,
    {
        note_operand(found, &operands[i]);
        i += 1;
    }
}

fn note_fields(found: &mut Vec<Path>, place: &Place, variant: Option<u32>, fields: usize)
    ensures
        final(found)@ == with_fields(old(found)@, *place, variant, fields as nat),
{
    let ghost was = found@;
    let mut i: usize = 0;
    while i < fields
        invariant
            i <= fields,
            found@ == with_fields(was, *place, variant, i as nat),
        decreases fields - i,
    {
        note(found, Path::under(place, variant, i as u32));
        i += 1;
    }
}

fn note_rvalue(found: &mut Vec<Path>, rvalue: &Rvalue)
    ensures
        final(found)@ == with_rvalue(old(found)@, *rvalue),
{
    match rvalue {
        Rvalue::Use(operand) => note_operand(found, operand),
        Rvalue::IntCast(operand, _) => note_operand(found, operand),
        Rvalue::Reinterpret(operand, _) => note_operand(found, operand),
        Rvalue::Unsize(operand) => note_operand(found, operand),
        Rvalue::Binary(_, left, right) => {
            note_operand(found, left);
            note_operand(found, right);
        },
        Rvalue::Not(operand) => note_operand(found, operand),
        Rvalue::Metadata(operand) => note_operand(found, operand),
        Rvalue::Address(place, _, _) => note(found, Path::of(place)),
        Rvalue::Discriminant(place) => note(found, Path::of(place)),
        Rvalue::Aggregate(_, fields) => note_operands(found, fields),
        Rvalue::Other(operands) => note_operands(found, operands),
    }
}

fn note_statement(found: &mut Vec<Path>, stmt: &Statement)
    ensures
        final(found)@ == with_statement(old(found)@, *stmt),
{
    match stmt {
        Statement::Assign(place, rvalue) => {
            note(found, Path::of(place));
            note_rvalue(found, rvalue);
            if let Rvalue::Aggregate(build, fields) = rvalue {
                if let Some(variant) = variant_built(*build) {
                    note_fields(found, place, variant, fields.len());
                }
            }
        },
        Statement::SetDiscriminant(place, _) => note(found, Path::of(place)),
        Statement::Mention(place) => note(found, Path::of(place)),
        Statement::Assume(operand) => note_operand(found, operand),
        Statement::Copy(operands) => note_operands(found, operands),
        _ => {},
    }
}

fn note_terminator(found: &mut Vec<Path>, term: &Terminator)
    ensures
        final(found)@ == with_terminator(old(found)@, *term),
{
    match term {
        Terminator::Switch(discr, _, _) => note_operand(found, discr),
        Terminator::Assert(check) => {
            note_operand(found, &check.cond);
            note_operands(found, &check.message);
        },
        Terminator::Call(call) => {
            if let Some(place) = &call.func {
                note(found, Path::of(place));
            }
            note_operands(found, &call.args);
            note(found, Path::of(&call.destination));
        },
        Terminator::Drop(place, _, _, _) => note(found, Path::of(place)),
        Terminator::TailCall(operands) => note_operands(found, operands),
        _ => {},
    }
}

fn note_block(found: &mut Vec<Path>, block: &Block)
    ensures
        final(found)@ == ({
            let inside = with_statements(
                old(found)@,
                block.statements@,
                block.statements@.len(),
            );
            match block.terminator {
                Some(term) => with_terminator(inside, term),
                None => inside,
            }
        }),
{
    let ghost was = found@;
    let mut i: usize = 0;
    while i < block.statements.len()
        invariant
            i <= block.statements@.len(),
            found@ == with_statements(was, block.statements@, i as nat),
        decreases block.statements@.len() - i,
    {
        note_statement(found, &block.statements[i]);
        i += 1;
    }
    if let Some(term) = &block.terminator {
        note_terminator(found, term);
    }
}

/// The places one body is tracked at, and where each sits in the state.
///
/// Slots are laid out past the locals, so a place is named by a local index
/// like any other claim and every rule about forgetting and merging applies
/// to it unchanged.
#[derive(Debug)]
pub struct Places {
    pub paths: Vec<Path>,
    pub first: usize,
}

/// The first of some paths that is a given one.
pub open spec fn first_of(paths: Seq<Path>, path: Path, n: nat) -> Option<usize>
    decreases n,
{
    if n == 0 {
        None
    } else {
        match first_of(paths, path, (n - 1) as nat) {
            Some(at) => Some(at),
            None => if paths[n - 1] == path {
                Some((n - 1) as usize)
            } else {
                None
            },
        }
    }
}

proof fn none_before(paths: Seq<Path>, path: Path, n: nat)
    requires
        forall|k: int| 0 <= k < n ==> #[trigger] paths[k] != path,
    ensures
        first_of(paths, path, n) is None,
    decreases n,
{
    if n > 0 {
        none_before(paths, path, (n - 1) as nat);
    }
}

proof fn found_first(paths: Seq<Path>, path: Path, at: nat, n: nat)
    requires
        at < n <= paths.len(),
        paths[at as int] == path,
        forall|k: int| 0 <= k < at ==> #[trigger] paths[k] != path,
    ensures
        first_of(paths, path, n) == Some(at as usize),
    decreases n,
{
    if n == at + 1 {
        none_before(paths, path, at);
    } else {
        found_first(paths, path, at, (n - 1) as nat);
    }
}

/// The places one body is tracked at, in order, past how many locals.
#[verifier::ext_equal]
pub struct Slots {
    pub paths: Seq<Path>,
    pub first: usize,
}

impl View for Places {
    type V = Slots;

    open spec fn view(&self) -> Slots {
        Slots { paths: self.paths@, first: self.first }
    }
}

impl Slots {
    /// The places of a body.
    pub open spec fn of(function: Function) -> Slots {
        Slots { paths: watched(function), first: function.locals@.len() as usize }
    }

    /// Whether the slots fit past the locals.
    pub open spec fn wf(self) -> bool {
        self.first + self.paths.len() <= usize::MAX
    }

    /// The slot a path is recorded at.
    pub open spec fn at(self, path: Path) -> Option<Local> {
        match first_of(self.paths, path, self.paths.len()) {
            Some(at) => Some(Local((self.first + at) as usize)),
            None => None,
        }
    }

    /// The slot a place is recorded at.
    pub open spec fn slot(self, place: Place) -> Option<Local> {
        match Path::spec_of(place) {
            Some(path) => self.at(path),
            None => None,
        }
    }

    /// The place a slot records, when the slot is one.
    pub open spec fn path(self, slot: Local) -> Option<Path> {
        if self.first <= slot.0 < self.first + self.paths.len() {
            Some(self.paths[slot.0 - self.first])
        } else {
            None
        }
    }
}

impl Places {
    /// Collects the places a body reads or writes.
    pub fn of(function: &Function) -> (r: Places)
        ensures
            r@ == Slots::of(*function),
    {
        let mut found: Vec<Path> = Vec::new();
        let mut i: usize = 0;
        while i < function.blocks.len()
            invariant
                i <= function.blocks@.len(),
                found@ == with_blocks(Seq::empty(), function.blocks@, i as nat),
            decreases function.blocks@.len() - i,
        {
            note_block(&mut found, &function.blocks[i]);
            i += 1;
        }
        let ghost inside = found@;
        let mut i: usize = 0;
        while i < function.named.len()
            invariant
                i <= function.named@.len(),
                found@ == with_places(inside, function.named@, i as nat),
            decreases function.named@.len() - i,
        {
            note(&mut found, Path::of(&function.named[i]));
            i += 1;
        }
        Places { paths: found, first: function.locals.len() }
    }

    /// How many places are tracked.
    pub fn len(&self) -> (r: usize)
        ensures
            r == self.paths@.len(),
    {
        self.paths.len()
    }

    /// The slot a path is recorded at.
    pub fn at(&self, path: Path) -> (r: Option<Local>)
        requires
            self@.wf(),
        ensures
            r == self@.at(path),
    {
        match position(&self.paths, path) {
            Some(at) => {
                proof {
                    found_first(self.paths@, path, at as nat, self.paths@.len());
                }
                Some(Local(self.first + at))
            },
            None => {
                proof {
                    assert forall|k: int| 0 <= k < self.paths@.len() implies #[trigger] self.paths@[k]
                        != path by {
                        assert(self.paths@.contains(self.paths@[k]));
                    }
                    none_before(self.paths@, path, self.paths@.len());
                }
                None
            },
        }
    }

    /// The slot a place is recorded at.
    pub fn slot(&self, place: &Place) -> (r: Option<Local>)
        requires
            self@.wf(),
        ensures
            r == self@.slot(*place),
    {
        match Path::of(place) {
            Some(path) => self.at(path),
            None => None,
        }
    }

    /// The place a slot records, when the slot is one.
    pub fn path(&self, slot: Local) -> (r: Option<Path>)
        ensures
            r == self@.path(slot),
    {
        if slot.0 >= self.first && slot.0 - self.first < self.paths.len() {
            Some(self.paths[slot.0 - self.first])
        } else {
            None
        }
    }
}

/// A state once every place of a kind, among the first `n`, is forgotten.
pub open spec fn swept_where(
    state: Seq<Fact>,
    places: Slots,
    gone: spec_fn(Path) -> bool,
    n: nat,
) -> Seq<Fact>
    decreases n,
{
    if n == 0 {
        state
    } else {
        let before = swept_where(state, places, gone, (n - 1) as nat);
        if gone(places.paths[n - 1]) {
            state::forgotten(before, Local((places.first + n - 1) as usize))
        } else {
            before
        }
    }
}

/// The places reached from a local.
pub open spec fn based_on(base: Local) -> spec_fn(Path) -> bool {
    |path: Path| path.base == base
}

/// The places a local decides the element of.
pub open spec fn decided_by(local: Local) -> spec_fn(Path) -> bool {
    |path: Path| path.takes(Step::At(local))
}

/// Whether a pointer could be aimed at a local.
pub open spec fn aimed_at(escaped: Seq<bool>, local: Local) -> bool {
    local.0 >= escaped.len() || escaped[local.0 as int]
}

/// Whether a write through a pointer could land on a place.
pub open spec fn spec_aliased(escaped: Seq<bool>, path: Path) -> bool {
    path.takes(Step::Deref) || aimed_at(escaped, path.base)
}

/// The places a write through a pointer could reach.
pub open spec fn exposed(escaped: Seq<bool>) -> spec_fn(Path) -> bool {
    |path: Path| spec_aliased(escaped, path)
}

/// A state once every place reached from a local is forgotten.
pub open spec fn base_swept(state: Seq<Fact>, places: Slots, base: Local) -> Seq<Fact> {
    swept_where(state, places, based_on(base), places.paths.len())
}

/// A state once every place a local decides the element of is forgotten.
pub open spec fn index_swept(state: Seq<Fact>, places: Slots, local: Local) -> Seq<Fact> {
    swept_where(state, places, decided_by(local), places.paths.len())
}

/// A state once every place a write through a pointer could reach is
/// forgotten.
pub open spec fn alias_swept(state: Seq<Fact>, places: Slots, escaped: Seq<bool>) -> Seq<Fact> {
    swept_where(state, places, exposed(escaped), places.paths.len())
}

/// Forgets every place reached from a local.
///
/// A write to the local puts a different value there, and a write into part
/// of it can land anywhere inside, so neither leaves a claim about what it
/// holds standing.
pub fn sweep_base(state: &mut State, places: &Places, base: Local)
    requires
        state::sound(old(state)@),
        places@.wf(),
    ensures
        final(state)@ == base_swept(old(state)@, places@, base),
        state::sound(final(state)@),
{
    let ghost was = state@;
    let mut i: usize = 0;
    while i < places.paths.len()
        invariant
            i <= places.paths@.len(),
            places@.wf(),
            state::sound(state@),
            state@ == swept_where(was, places@, based_on(base), i as nat),
        decreases places.paths@.len() - i,
    {
        if places.paths[i].base == base {
            forget(state, Local(places.first + i));
        }
        i += 1;
    }
}

/// Forgets every place a local decides the element of.
///
/// A write to that local names a different element, so what was known about
/// the one it named before says nothing about the place now.
pub fn sweep_indexed(state: &mut State, places: &Places, local: Local)
    requires
        state::sound(old(state)@),
        places@.wf(),
    ensures
        final(state)@ == index_swept(old(state)@, places@, local),
        state::sound(final(state)@),
{
    let ghost was = state@;
    let mut i: usize = 0;
    while i < places.paths.len()
        invariant
            i <= places.paths@.len(),
            places@.wf(),
            state::sound(state@),
            state@ == swept_where(was, places@, decided_by(local), i as nat),
        decreases places.paths@.len() - i,
    {
        if places.paths[i].indexed_by(local) {
            forget(state, Local(places.first + i));
        }
        i += 1;
    }
}

/// Whether a pointer could be aimed at a local.
pub fn is_aimed_at(escaped: &Vec<bool>, local: Local) -> (r: bool)
    ensures
        r == aimed_at(escaped@, local),
{
    local.0 >= escaped.len() || escaped[local.0]
}

/// Forgets every place a write through a pointer could reach.
///
/// That is every place read through a pointer, and every place inside a
/// local whose address was taken, since a pointer can only be aimed at one
/// of those.
pub fn sweep_aliased(state: &mut State, places: &Places, escaped: &Vec<bool>)
    requires
        state::sound(old(state)@),
        places@.wf(),
    ensures
        final(state)@ == alias_swept(old(state)@, places@, escaped@),
        state::sound(final(state)@),
{
    let ghost was = state@;
    let mut i: usize = 0;
    while i < places.paths.len()
        invariant
            i <= places.paths@.len(),
            places@.wf(),
            state::sound(state@),
            state@ == swept_where(was, places@, exposed(escaped@), i as nat),
        decreases places.paths@.len() - i,
    {
        let path = places.paths[i];
        if path.behind_pointer() || is_aimed_at(escaped, path.base) {
            forget(state, Local(places.first + i));
        }
        i += 1;
    }
}

/// After a sweep, nothing is known of a place of the kind swept, and no claim
/// about anything leans on it.
pub proof fn sweeping_leaves_nothing(
    state: Seq<Fact>,
    places: Slots,
    gone: spec_fn(Path) -> bool,
    n: nat,
    at: int,
    i: int,
)
    requires
        places.wf(),
        0 <= at < n <= places.paths.len(),
        gone(places.paths[at]),
        0 <= i < state.len(),
    ensures
        swept_where(state, places, gone, n).len() == state.len(),
        !state::leans(
            swept_where(state, places, gone, n)[i],
            Local((places.first + at) as usize),
        ),
        i == places.first + at ==> swept_where(state, places, gone, n)[i] == Fact::nothing(),
    decreases n,
{
    sweeping_keeps_the_length(state, places, gone, (n - 1) as nat);
    let before = swept_where(state, places, gone, (n - 1) as nat);
    let slot = Local((places.first + n - 1) as usize);
    if at < n - 1 {
        sweeping_leaves_nothing(state, places, gone, (n - 1) as nat, at, i);
        if gone(places.paths[n - 1]) {
            assert(state::forgotten(before, slot)[i] == (if i == slot.0 {
                Fact::nothing()
            } else {
                state::swept(before[i], slot)
            }));
        }
    } else {
        state::forgetting_leaves_nothing(before, slot, i);
    }
}

proof fn sweeping_keeps_the_length(
    state: Seq<Fact>,
    places: Slots,
    gone: spec_fn(Path) -> bool,
    n: nat,
)
    ensures
        swept_where(state, places, gone, n).len() == state.len(),
    decreases n,
{
    if n > 0 {
        sweeping_keeps_the_length(state, places, gone, (n - 1) as nat);
    }
}

/// Whether a statement takes a pointer a local could be written through.
///
/// A pointer taken through another one is aimed at what that one points at,
/// not at the local holding it, so `&mut *slice` leaves the reference itself
/// unaliased and the length it carries still readable. Nothing is written
/// through a shared reference, so the place it was taken of holds what it
/// held, unless its type carries a cell.
pub open spec fn aims(stmt: Statement, local: Local) -> bool {
    match stmt {
        Statement::Assign(_, Rvalue::Address(place, shared, frozen)) => place.local == local
            && !place.spec_through() && !(shared && frozen),
        _ => false,
    }
}

/// Whether the statement at a position takes a pointer a local could be
/// written through.
pub open spec fn aims_at(function: Function, b: int, s: int, local: Local) -> bool {
    &&& 0 <= b < function.blocks@.len()
    &&& 0 <= s < function.blocks@[b].statements@.len()
    &&& aims(function.blocks@[b].statements@[s], local)
}

/// Whether a pointer could be aimed at a local.
pub open spec fn escapes_in(function: Function, local: Local) -> bool {
    exists|b: int, s: int| #[trigger] aims_at(function, b, s, local)
}

/// Which locals of a body a pointer could be aimed at.
pub open spec fn spec_escaping(function: Function) -> Seq<bool> {
    Seq::new(function.locals@.len(), |i: int| escapes_in(function, Local(i as usize)))
}

/// Whether one statement comes before another.
pub open spec fn earlier(b: int, s: int, at: int, stmt: int) -> bool {
    b < at || b == at && s < stmt
}

/// Whether a pointer could be aimed at a local by a statement before another.
pub open spec fn escapes_by(function: Function, at: int, stmt: int, local: Local) -> bool {
    exists|b: int, s: int|
        #[trigger] aims_at(function, b, s, local) && earlier(b, s, at, stmt)
}

/// Locals a pointer could be aimed at.
///
/// A write through a pointer can reach any of these, so their value is never
/// assumed. Every other local can only be written by naming it, which the
/// walk sees.
pub fn escaping(function: &Function) -> (r: Vec<bool>)
    ensures
        r@ == spec_escaping(*function),
{
    let n = function.locals.len();
    let mut escaped = crate::lists::unset_flags(n);
    let mut b: usize = 0;
    while b < function.blocks.len()
        invariant
            n == function.locals@.len(),
            b <= function.blocks@.len(),
            escaped@.len() == n,
            forall|i: int|
                0 <= i < n ==> #[trigger] escaped@[i] == escapes_by(
                    *function,
                    b as int,
                    0,
                    Local(i as usize),
                ),
        decreases function.blocks@.len() - b,
    {
        let block = &function.blocks[b];
        let mut s: usize = 0;
        while s < block.statements.len()
            invariant
                n == function.locals@.len(),
                b < function.blocks@.len(),
                *block == function.blocks@[b as int],
                s <= block.statements@.len(),
                escaped@.len() == n,
                forall|i: int|
                    0 <= i < n ==> #[trigger] escaped@[i] == escapes_by(
                        *function,
                        b as int,
                        s as int,
                        Local(i as usize),
                    ),
            decreases block.statements@.len() - s,
        {
            let ghost was = escaped@;
            let stmt = &block.statements[s];
            if let Statement::Assign(_, Rvalue::Address(place, shared, frozen)) = stmt {
                if !place.through() && !(*shared && *frozen) {
                    if place.local.0 < escaped.len() {
                        escaped.set(place.local.0, true);
                    }
                }
            }
            assert forall|i: int| 0 <= i < n implies #[trigger] escaped@[i] == escapes_by(
                *function,
                b as int,
                s + 1,
                Local(i as usize),
            ) by {
                let local = Local(i as usize);
                assert(was[i] == escapes_by(*function, b as int, s as int, local));
                if aims(*stmt, local) {
                    assert(aims_at(*function, b as int, s as int, local));
                    assert(earlier(b as int, s as int, b as int, s + 1));
                } else {
                    assert(escaped@[i] == was[i]);
                    assert(!aims_at(*function, b as int, s as int, local));
                }
            }
            s += 1;
        }
        assert forall|i: int| 0 <= i < n implies #[trigger] escaped@[i] == escapes_by(
            *function,
            b + 1,
            0,
            Local(i as usize),
        ) by {
            let local = Local(i as usize);
            assert(escaped@[i] == escapes_by(*function, b as int, s as int, local));
        }
        b += 1;
    }
    assert(escaped@ =~= spec_escaping(*function)) by {
        assert forall|i: int| 0 <= i < n implies escaped@[i] == escapes_in(
            *function,
            Local(i as usize),
        ) by {
            let local = Local(i as usize);
            assert(escaped@[i] == escapes_by(*function, b as int, 0, local));
        }
    }
    escaped
}

/// Whether a statement can change a local.
///
/// Anything not modelled is treated as able to write anywhere, so a fact
/// never outlives the value it was drawn from.
pub open spec fn spec_writes(stmt: Statement, local: Local) -> bool {
    match stmt {
        Statement::Assign(place, _) => place.local == local,
        Statement::SetDiscriminant(place, _) => place.local == local,
        Statement::StorageLive(other) => other == local,
        Statement::StorageDead(other) => other == local,
        Statement::Assume(_) => true,
        Statement::Copy(_) => true,
        Statement::Mention(_) => false,
        Statement::Nop => false,
    }
}

/// Whether a statement can change a local.
pub fn writes(stmt: &Statement, local: Local) -> (r: bool)
    ensures
        r == spec_writes(*stmt, local),
{
    match stmt {
        Statement::Assign(place, _) => place.local == local,
        Statement::SetDiscriminant(place, _) => place.local == local,
        Statement::StorageLive(other) => *other == local,
        Statement::StorageDead(other) => *other == local,
        Statement::Assume(_) => true,
        Statement::Copy(_) => true,
        Statement::Mention(_) => false,
        Statement::Nop => false,
    }
}

} // verus!
