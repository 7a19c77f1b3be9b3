//! What a statement does to what the walk knows.
//!
//! A write into part of a place can land anywhere inside it, so every place
//! reached from the same local goes with it; a write through a pointer can
//! land wherever a pointer could be aimed, so those go too.

use vstd::prelude::*;

use crate::mir::{Build, Operand, Place, Rvalue, Statement};
use crate::places;
use crate::places::{
    sweep_aliased, sweep_base, sweep_indexed, variant_built, writes, Path,
};
use crate::read;
use crate::read::{measuring, Lens, Scope};
use crate::state;
use crate::state::{forget, held, record, retire, State};
use crate::value;
use crate::value::{Claim, Fact, Local};

verus! {

/// The local an operand is read from, at whatever place inside it.
pub open spec fn read_from(operand: Operand) -> Option<Local> {
    match operand {
        Operand::Read(place, _) => Some(place.local),
        _ => None,
    }
}

impl Lens {
    /// Whether a statement can change what a slot holds.
    pub open spec fn touches(self, stmt: Statement, slot: Local) -> bool {
        match self.places.path(slot) {
            None => places::spec_writes(stmt, slot),
            Some(path) => match stmt {
                Statement::Assign(place, _) => place.local == path.base || path.takes(
                    crate::mir::Step::At(place.local),
                ) || (place.spec_is_indirect() && places::spec_aliased(self.escaped, path)),
                Statement::SetDiscriminant(place, _) => place.local == path.base || (
                place.spec_is_indirect() && places::spec_aliased(self.escaped, path)),
                Statement::StorageLive(other) => other == path.base || path.takes(
                    crate::mir::Step::At(other),
                ),
                Statement::StorageDead(other) => other == path.base || path.takes(
                    crate::mir::Step::At(other),
                ),
                Statement::Copy(_) => true,
                _ => false,
            },
        }
    }

    /// A state once a place is written.
    pub open spec fn overwritten(self, state: Seq<Fact>, place: Place) -> Seq<Fact> {
        let written = if place.spec_through() {
            state
        } else {
            places::base_swept(state::forgotten(state, place.local), self.places, place.local)
        };
        let moved = places::index_swept(written, self.places, place.local);
        if place.spec_is_indirect() {
            places::alias_swept(moved, self.places, self.escaped)
        } else {
            moved
        }
    }

    /// Where a field of an aggregate is recorded, when the walk records one.
    pub open spec fn field_slot(self, place: Place, variant: Option<u32>, field: u32) -> Option<
        Local,
    > {
        match Path::spec_under(place, variant, field) {
            Some(path) => match self.places.at(path) {
                Some(slot) => if places::aimed_at(self.escaped, slot) {
                    None
                } else {
                    Some(slot)
                },
                None => None,
            },
            None => None,
        }
    }

    /// A state once a constructor has filled its first `n` fields.
    ///
    /// An operand reaching into the place being written was read before the
    /// write, and says nothing about it afterwards.
    pub open spec fn filled(
        self,
        state: Seq<Fact>,
        place: Place,
        variant: Option<u32>,
        fields: Seq<Operand>,
        n: nat,
    ) -> Seq<Fact>
        decreases n,
    {
        if n == 0 {
            state
        } else {
            let before = self.filled(state, place, variant, fields, (n - 1) as nat);
            let fact = self.fact(before, fields[n - 1]);
            match self.field_slot(place, variant, (n - 1) as u32) {
                Some(slot) => if read_from(fields[n - 1]) == Some(place.local) || fact
                    == Fact::nothing() {
                    before
                } else {
                    state::put(before, slot, fact)
                },
                None => before,
            }
        }
    }

    /// Whether a place reached from a local is tracked.
    pub open spec fn tracks_under(self, base: Local) -> bool {
        exists|i: int| 0 <= i < self.places.paths.len() && #[trigger] self.places.paths[i].base == base
    }

    /// A state once a constructor has filled its fields.
    pub open spec fn constructed(self, state: Seq<Fact>, place: Place, rvalue: Rvalue) -> Seq<
        Fact,
    > {
        match rvalue {
            Rvalue::Aggregate(build, fields) => match places::spec_variant_built(build) {
                Some(variant) => if place.spec_is_indirect() || !self.tracks_under(place.local) {
                    state
                } else {
                    self.filled(state, place, variant, fields@, fields@.len())
                },
                None => state,
            },
            _ => state,
        }
    }

    /// The local a fat pointer's length is read from, and the slot the
    /// pointer is recorded at, where the length is not read as anything yet.
    pub open spec fn measured_by(self, state: Seq<Fact>, place: Place, rvalue: Rvalue) -> Option<
        (Local, Local),
    > {
        match rvalue {
            Rvalue::Aggregate(Build::Fat, fields) => if fields@.len() > 1 {
                match fields@[1] {
                    Operand::Read(from, _) => match (from.spec_as_local(), self.slot_of(place)) {
                        (Some(local), Some(slot)) => if places::aimed_at(self.escaped, local)
                            || local.0 >= state.len() || state[local.0 as int].value is Some {
                            None
                        } else {
                            Some((local, slot))
                        },
                        _ => None,
                    },
                    _ => None,
                }
            } else {
                None
            },
            _ => None,
        }
    }

    /// A state once the length a slice was built from is that slice's length.
    pub open spec fn sized_by(self, state: Seq<Fact>, place: Place, rvalue: Rvalue) -> Seq<Fact> {
        match self.measured_by(state, place, rvalue) {
            Some((local, slot)) => state::put(
                state,
                local,
                Fact {
                    same: state[local.0 as int].same,
                    ..read::spec_measuring(Claim::Length(slot))
                },
            ),
            None => state,
        }
    }

    /// A state once a place is assigned.
    ///
    /// The value is read before the write is applied, so an rvalue naming the
    /// target reads its old value, and the slot is found before the write
    /// sweeps it. A link to the place being written says nothing.
    pub open spec fn assigned(self, state: Seq<Fact>, place: Place, rvalue: Rvalue) -> Seq<Fact> {
        let fact = self.rvalue(state, rvalue);
        let target = self.slot_of(place);
        let swept = self.overwritten(state, place);
        let held = match target {
            Some(slot) => state::put(
                swept,
                slot,
                if fact.same == target {
                    Fact { same: None, ..fact }
                } else {
                    fact
                },
            ),
            None => swept,
        };
        self.sized_by(self.constructed(held, place, rvalue), place, rvalue)
    }

    /// A state once an enum's variant is set.
    pub open spec fn discriminated(self, state: Seq<Fact>, place: Place, variant: u32) -> Seq<Fact> {
        let swept = self.overwritten(state, place);
        match self.slot_of(place) {
            Some(slot) => state::put(
                swept,
                slot,
                Fact {
                    tag: self.tag_of(place.ty, variant as usize),
                    ..state::spec_held(swept, slot)
                },
            ),
            None => swept,
        }
    }

    /// A state once the places that named a local are gone with it.
    pub open spec fn unnamed(self, state: Seq<Fact>, local: Local) -> Seq<Fact> {
        places::index_swept(
            places::base_swept(state, self.places, local),
            self.places,
            local,
        )
    }

    /// A state once a statement has run, or nothing where the block stops at
    /// it: an assumption this build contradicts, so nothing it leads to runs.
    pub open spec fn statement(self, state: Seq<Fact>, stmt: Statement) -> Option<Seq<Fact>> {
        match stmt {
            Statement::Assign(place, rvalue) => Some(self.assigned(state, place, rvalue)),
            Statement::SetDiscriminant(place, variant) => Some(
                self.discriminated(state, place, variant),
            ),
            Statement::StorageLive(local) => Some(
                self.unnamed(state::forgotten(state, local), local),
            ),
            Statement::StorageDead(local) => Some(
                self.unnamed(state::retired(state, local), local),
            ),
            Statement::Assume(operand) => match value::spec_pinned(self.fact(state, operand)) {
                Some(known) => if known.bits == 0 {
                    None
                } else {
                    Some(state)
                },
                None => Some(state),
            },
            Statement::Copy(_) => Some(places::alias_swept(state, self.places, self.escaped)),
            _ => Some(state),
        }
    }

    /// A state once the first `n` of some statements have run, or nothing
    /// where the block stops at one.
    pub open spec fn statements(self, state: Seq<Fact>, stmts: Seq<Statement>, n: nat) -> Option<
        Seq<Fact>,
    >
        decreases n,
    {
        if n == 0 {
            Some(state)
        } else {
            match self.statements(state, stmts, (n - 1) as nat) {
                Some(before) => self.statement(before, stmts[n - 1]),
                None => None,
            }
        }
    }

    /// A block that stops at a statement stops before what follows.
    pub proof fn stopping_is_final(self, state: Seq<Fact>, stmts: Seq<Statement>, n: nat, m: nat)
        requires
            n <= m,
            self.statements(state, stmts, n) is None,
        ensures
            self.statements(state, stmts, m) is None,
        decreases m,
    {
        if n < m {
            self.stopping_is_final(state, stmts, n, (m - 1) as nat);
        }
    }
}

impl<'a> Scope<'a> {
    /// Whether a statement can change what a slot holds.
    pub fn touches(&self, stmt: &Statement, slot: Local) -> (r: bool)
        ensures
            r == self@.touches(*stmt, slot),
    {
        let path = match self.places.path(slot) {
            Some(path) => path,
            None => {
                return writes(stmt, slot);
            },
        };
        match stmt {
            Statement::Assign(place, _) => place.local == path.base || path.indexed_by(place.local)
                || (place.is_indirect() && (path.behind_pointer() || self.escapes(path.base))),
            Statement::SetDiscriminant(place, _) => place.local == path.base || (
            place.is_indirect() && (path.behind_pointer() || self.escapes(path.base))),
            Statement::StorageLive(other) => *other == path.base || path.indexed_by(*other),
            Statement::StorageDead(other) => *other == path.base || path.indexed_by(*other),
            Statement::Copy(_) => true,
            _ => false,
        }
    }

    /// Applies a write to a place, forgetting whatever it could reach.
    ///
    /// A write through a pointer lands where the pointer aims, not on
    /// the local holding it, so the reference stands and so does every
    /// claim measured against it: storing into `v[i]` cannot change how
    /// long `v` is.
    pub fn overwrite(&self, state: &mut State, place: &Place)
        requires
            self@.wf(),
            state::sound(old(state)@),
        ensures
            final(state)@ == self@.overwritten(old(state)@, *place),
            state::sound(final(state)@),
    {
        if !place.through() {
            forget(state, place.local);
            sweep_base(state, &self.places, place.local);
        }
        sweep_indexed(state, &self.places, place.local);
        if place.is_indirect() {
            sweep_aliased(state, &self.places, &self.escaped);
        }
    }

    fn field_slot(&self, place: &Place, variant: Option<u32>, field: u32) -> (r: Option<Local>)
        requires
            self@.wf(),
        ensures
            r == self@.field_slot(*place, variant, field),
    {
        match Path::under(place, variant, field) {
            Some(path) => match self.places.at(path) {
                Some(slot) => if self.escapes(slot) {
                    None
                } else {
                    Some(slot)
                },
                None => None,
            },
            None => None,
        }
    }

    fn fill(
        &self,
        state: &mut State,
        place: &Place,
        variant: Option<u32>,
        fields: &Vec<Operand>,
    )
        requires
            self@.wf(),
            state::sound(old(state)@),
        ensures
            final(state)@ == self@.filled(old(state)@, *place, variant, fields@, fields@.len()),
            state::sound(final(state)@),
    {
        let ghost was = state@;
        let mut i: usize = 0;
        while i < fields.len()
            invariant
                self@.wf(),
                i <= fields@.len(),
                state::sound(state@),
                state@ == self@.filled(was, *place, variant, fields@, i as nat),
            decreases fields@.len() - i,
        {
            let from = match &fields[i] {
                Operand::Read(from, _) => Some(from.local),
                _ => None,
            };
            let fact = self.fact(state, &fields[i]);
            if from != Some(place.local) && fact != Fact::blank() {
                if let Some(slot) = self.field_slot(place, variant, i as u32) {
                    record(state, slot, fact);
                }
            }
            i += 1;
        }
    }

    fn tracks_under(&self, base: Local) -> (r: bool)
        ensures
            r == self@.tracks_under(base),
    {
        let mut i: usize = 0;
        while i < self.places.paths.len()
            invariant
                i <= self.places.paths@.len(),
                forall|k: int| 0 <= k < i ==> #[trigger] self@.places.paths[k].base != base,
            decreases self.places.paths@.len() - i,
        {
            if self.places.paths[i].base == base {
                assert(self@.places.paths[i as int].base == base);
                return true;
            }
            i += 1;
        }
        false
    }

    /// Records what a constructor put in each of its fields.
    ///
    /// A value handed to a constructor is still that value where the field
    /// is read back, which is what carries a loop counter through the
    /// `Some` an iterator wraps it in, and a constant through the structure
    /// that holds it. Only the fields the walk has a slot for are recorded. A
    /// write through a pointer lands wherever the pointer is aimed, and the
    /// sweep that follows it has already taken these claims.
    fn constructed(&self, state: &mut State, place: &Place, rvalue: &Rvalue)
        requires
            self@.wf(),
            state::sound(old(state)@),
        ensures
            final(state)@ == self@.constructed(old(state)@, *place, *rvalue),
            state::sound(final(state)@),
    {
        if let Rvalue::Aggregate(build, fields) = rvalue {
            if let Some(variant) = variant_built(*build) {
                if !place.is_indirect() && self.tracks_under(place.local) {
                    self.fill(state, place, variant, fields);
                }
            }
        }
    }

    fn measured_by(&self, state: &State, place: &Place, rvalue: &Rvalue) -> (r: Option<
        (Local, Local),
    >)
        requires
            self@.wf(),
        ensures
            r == self@.measured_by(state@, *place, *rvalue),
    {
        match rvalue {
            Rvalue::Aggregate(Build::Fat, fields) => {
                if fields.len() <= 1 {
                    return None;
                }
                match &fields[1] {
                    Operand::Read(from, _) => match (from.as_local(), self.slot_of(place)) {
                        (Some(local), Some(slot)) => if self.escapes(local) || local.0
                            >= state.len() || state[local.0].value.is_some() {
                            None
                        } else {
                            Some((local, slot))
                        },
                        _ => None,
                    },
                    _ => None,
                }
            },
            _ => None,
        }
    }

    /// Records that the length a slice was built from is that slice's
    /// length.
    ///
    /// A fat pointer takes its metadata from a local, so from there on that
    /// local holds how long what it points at is. Saying so is what makes
    /// two slices cut to one length compare equal, which is the check a
    /// copy between them writes. A local the walk already reads as something
    /// says more than this.
    fn sized_by(&self, state: &mut State, place: &Place, rvalue: &Rvalue)
        requires
            self@.wf(),
            state::sound(old(state)@),
        ensures
            final(state)@ == self@.sized_by(old(state)@, *place, *rvalue),
            state::sound(final(state)@),
    {
        if let Some((local, slot)) = self.measured_by(state, place, rvalue) {
            let same = state[local.0].same;
            let fact = Fact { same, ..measuring(Claim::Length(slot)) };
            record(state, local, fact);
        }
    }

    fn assign(&self, state: &mut State, place: &Place, rvalue: &Rvalue)
        requires
            self@.wf(),
            state::sound(old(state)@),
        ensures
            final(state)@ == self@.assigned(old(state)@, *place, *rvalue),
            state::sound(final(state)@),
    {
        let fact = self.rvalue(state, rvalue);
        let target = self.slot_of(place);
        self.overwrite(state, place);
        if let Some(slot) = target {
            let fact = if fact.same == target {
                Fact { same: None, ..fact }
            } else {
                fact
            };
            record(state, slot, fact);
        }
        self.constructed(state, place, rvalue);
        self.sized_by(state, place, rvalue);
    }

    /// Applies one statement, returning whether the block still runs.
    ///
    /// An assumption is a note to the optimizer, not a write, so what the
    /// walk holds about memory survives it. The library states one about a
    /// vector's length on the way out of `len`, between the guard reading
    /// that length and the check reading it again. Copying between pointers
    /// lands wherever one is aimed.
    pub fn statement(&self, state: &mut State, stmt: &Statement) -> (r: bool)
        requires
            self@.wf(),
            state::sound(old(state)@),
        ensures
            match self@.statement(old(state)@, *stmt) {
                Some(next) => r && final(state)@ == next && state::sound(next),
                None => !r,
            },
    {
        match stmt {
            Statement::Assign(place, rvalue) => {
                self.assign(state, place, rvalue);
            },
            Statement::SetDiscriminant(place, variant) => {
                let tag = self.tag_of(place.ty, *variant as usize);
                let slot = self.slot_of(place);
                self.overwrite(state, place);
                if let Some(slot) = slot {
                    let fact = Fact { tag, ..held(state, slot) };
                    record(state, slot, fact);
                }
            },
            Statement::StorageLive(local) => {
                forget(state, *local);
                sweep_base(state, &self.places, *local);
                sweep_indexed(state, &self.places, *local);
            },
            Statement::StorageDead(local) => {
                retire(state, *local);
                sweep_base(state, &self.places, *local);
                sweep_indexed(state, &self.places, *local);
            },
            Statement::Assume(operand) => {
                if let Some(known) = self.exact(state, operand) {
                    if !known.truth() {
                        return false;
                    }
                }
            },
            Statement::Copy(_) => {
                sweep_aliased(state, &self.places, &self.escaped);
            },
            Statement::Mention(_) => {},
            Statement::Nop => {},
        }
        true
    }

    /// Applies some statements in turn, returning whether the block still
    /// runs.
    pub fn statements(&self, state: &mut State, stmts: &Vec<Statement>) -> (r: bool)
        requires
            self@.wf(),
            state::sound(old(state)@),
        ensures
            match self@.statements(old(state)@, stmts@, stmts@.len()) {
                Some(next) => r && final(state)@ == next && state::sound(next),
                None => !r,
            },
    {
        let ghost was = state@;
        let mut i: usize = 0;
        while i < stmts.len()
            invariant
                self@.wf(),
                i <= stmts@.len(),
                was == old(state)@,
                state::sound(state@),
                self@.statements(was, stmts@, i as nat) == Some(state@),
            decreases stmts@.len() - i,
        {
            let ghost before = state@;
            if !self.statement(state, &stmts[i]) {
                proof {
                    assert(self@.statements(was, stmts@, i as nat) == Some(before));
                    assert(self@.statement(before, stmts@[i as int]) is None);
                    assert(self@.statements(was, stmts@, (i + 1) as nat) is None);
                    self@.stopping_is_final(was, stmts@, (i + 1) as nat, stmts@.len());
                }
                return false;
            }
            i += 1;
        }
        true
    }
}

} // verus!
