//! The bodies the folder walks.
//!
//! A body is the compiler's control flow graph of one function, written down
//! as plain values: what each block does, what each place is read at, and
//! which body a call runs. Everything the walk asks the compiler is answered
//! before it starts, so the walk itself depends on nothing but what is here.

use vstd::prelude::*;

use crate::text;
use crate::value::{truncate, BinOp, Form, Known, Local, Ty};
use crate::value;

verus! {

/// What a pointer points at, as far as the walk reads it.
#[derive(Debug, Clone, Copy, PartialEq, Eq, Structural)]
pub enum Pointee {
    /// A slice or a string, whose length the pointer carries.
    Slice,
    /// An array, with its length where that is known.
    Array(Option<u64>),
    /// Anything else.
    Other,
}

/// What kind of type a value is read at.
#[derive(Debug, Clone, Copy, PartialEq, Eq, Structural)]
pub enum Kind {
    /// A plain number: how it reads, and its width in bits.
    Number(Form, u32),
    /// A reference.
    Ref(Pointee),
    /// A raw pointer.
    Pointer(Pointee),
    /// The standard library's nonzero wrapper.
    NonZero,
    /// An enum, by its place in the program's table.
    Enum(usize),
    /// Anything else.
    Other,
}

/// A type, once every parameter of it is settled.
#[derive(Debug, Clone, Copy, PartialEq, Eq, Structural)]
pub struct Type {
    /// Which type it is. No two types share a number.
    pub id: u32,
    pub kind: Kind,
}

impl Type {
    /// The zero of a type whose values are plain numbers.
    pub open spec fn spec_seed(self) -> Option<Known> {
        match self.kind {
            Kind::Number(form, width) => if 1 <= width <= 128 {
                Some(Known { bits: 0, ty: Ty { id: self.id, form }, width })
            } else {
                None
            },
            _ => None,
        }
    }

    /// The zero of a type whose values are plain numbers.
    ///
    /// Anything else is refused, so a float or a pointer never reaches the
    /// comparisons, where its bits would not mean what they say.
    pub fn seed(self) -> (r: Option<Known>)
        ensures
            r == self.spec_seed(),
            match r {
                Some(k) => k.wf(),
                None => true,
            },
    {
        match self.kind {
            Kind::Number(form, width) => if 1 <= width && width <= 128 {
                Some(Known { bits: 0, ty: Ty { id: self.id, form }, width })
            } else {
                None
            },
            _ => None,
        }
    }

    /// What the type points at, if it is a pointer.
    pub open spec fn spec_pointee(self) -> Option<Pointee> {
        match self.kind {
            Kind::Ref(to) => Some(to),
            Kind::Pointer(to) => Some(to),
            _ => None,
        }
    }

    /// What the type points at, if it is a pointer.
    pub fn pointee(self) -> (r: Option<Pointee>)
        ensures
            r == self.spec_pointee(),
    {
        match self.kind {
            Kind::Ref(to) => Some(to),
            Kind::Pointer(to) => Some(to),
            _ => None,
        }
    }
}

/// The value of a type whose bits are the low bits of a number.
pub open spec fn spec_value_at(ty: Option<Type>, bits: u128) -> Option<Known> {
    match ty {
        Some(t) => match t.spec_seed() {
            Some(seed) => Some(
                Known { bits: value::low_bits(bits as int, seed.width as nat) as u128, ..seed },
            ),
            None => None,
        },
        None => None,
    }
}

/// The value of a type whose bits are the low bits of a number.
pub fn value_at(ty: Option<Type>, bits: u128) -> (r: Option<Known>)
    ensures
        r == spec_value_at(ty, bits),
        match r {
            Some(k) => k.wf(),
            None => true,
        },
{
    match ty {
        Some(t) => match t.seed() {
            Some(seed) => Some(Known { bits: truncate(bits, seed.width), ..seed }),
            None => None,
        },
        None => None,
    }
}

/// How an enum without a tag of its own tells its variants apart.
#[derive(Debug, Clone, Copy, PartialEq, Eq, Structural)]
pub struct Niche {
    /// The variant that carries the payload.
    pub untagged: usize,
    /// Whether one value alone stands for another variant.
    pub single: bool,
    /// The first value the payload never takes.
    pub start: u128,
}

/// What the walk reads of an enum.
#[derive(Debug)]
pub struct Enum {
    /// What each variant's discriminant reads as.
    pub tags: Vec<u128>,
    /// The type a discriminant is read at.
    pub read_at: Option<Type>,
    /// How the variants are told apart, where no tag is stored.
    pub niche: Option<Niche>,
}

/// One step from a local to a place inside it.
#[derive(Debug, Clone, Copy, PartialEq, Eq, Structural)]
pub enum Step {
    /// Through a pointer.
    Deref,
    /// Into a field.
    Field(u32),
    /// Into the payload of one variant.
    Variant(u32),
    /// To the element a local names, which is a place only for as long as
    /// that local holds the same index.
    At(Local),
    /// Anything the walk cannot tell apart from another place.
    Opaque,
}

/// A place: a local, and the steps from it.
#[derive(Debug)]
pub struct Place {
    pub local: Local,
    pub steps: Vec<Step>,
    /// The type of what is there, where it is settled.
    pub ty: Option<Type>,
}

impl Place {
    /// The local, when the place is one.
    pub open spec fn spec_as_local(self) -> Option<Local> {
        if self.steps@.len() == 0 {
            Some(self.local)
        } else {
            None
        }
    }

    /// The local, when the place is one.
    pub fn as_local(&self) -> (r: Option<Local>)
        ensures
            r == self.spec_as_local(),
    {
        if self.steps.len() == 0 {
            Some(self.local)
        } else {
            None
        }
    }

    /// Whether the place is reached by first going through the local.
    pub open spec fn spec_through(self) -> bool {
        self.steps@.len() > 0 && self.steps@[0] is Deref
    }

    /// Whether the place is reached by first going through the local.
    pub fn through(&self) -> (r: bool)
        ensures
            r == self.spec_through(),
    {
        self.steps.len() > 0 && self.steps[0] == Step::Deref
    }

    /// Whether the place is reached through a pointer.
    pub open spec fn spec_is_indirect(self) -> bool {
        exists|i: int| 0 <= i < self.steps@.len() && self.steps@[i] is Deref
    }

    /// Whether the place is reached through a pointer.
    pub fn is_indirect(&self) -> (r: bool)
        ensures
            r == self.spec_is_indirect(),
    {
        let mut i: usize = 0;
        while i < self.steps.len()
            invariant
                i <= self.steps@.len(),
                forall|k: int| 0 <= k < i ==> !(self.steps@[k] is Deref),
            decreases self.steps@.len() - i,
        {
            if self.steps[i] == Step::Deref {
                return true;
            }
            i += 1;
        }
        false
    }
}

/// What is read.
#[derive(Debug)]
pub enum Operand {
    /// What a place holds, and whether its type is written as a reference.
    Read(Place, bool),
    /// A constant: its bits where they could be evaluated, and its type.
    Constant(Option<u128>, Option<Type>),
    /// Whether a check is on, which the session compiling the crate settles.
    Checks(bool),
}

/// What an aggregate builds.
#[derive(Debug, Clone, Copy, PartialEq, Eq, Structural)]
pub enum Build {
    Tuple,
    Struct,
    Union,
    /// One variant of an enum.
    Variant(u32, Option<Type>),
    /// A fat pointer, from a thin one and what it points at.
    Fat,
    Other,
}

/// What an assignment computes.
#[derive(Debug)]
pub enum Rvalue {
    Use(Operand),
    /// From one integer type to another.
    IntCast(Operand, Option<Type>),
    /// Read at another type without changing a bit.
    Reinterpret(Operand, Option<Type>),
    /// An array behind a pointer made into a slice.
    Unsize(Operand),
    Binary(BinOp, Operand, Operand),
    Not(Operand),
    /// What a wide pointer carries beside its address.
    Metadata(Operand),
    /// The address of a place: whether nothing is written through it, and
    /// whether the place holds no cell.
    Address(Place, bool, bool),
    Discriminant(Place),
    Aggregate(Build, Vec<Operand>),
    /// Anything else, with what it reads.
    Other(Vec<Operand>),
}

/// What a block does before it ends.
#[derive(Debug)]
pub enum Statement {
    Assign(Place, Rvalue),
    SetDiscriminant(Place, u32),
    StorageLive(Local),
    StorageDead(Local),
    /// A note to the optimizer that a condition holds.
    Assume(Operand),
    /// A copy between pointers.
    Copy(Vec<Operand>),
    /// A place named without being read or written.
    Mention(Place),
    Nop,
}

/// Where unwinding out of a terminator goes.
#[derive(Debug, Clone, Copy, PartialEq, Eq, Structural)]
pub enum Unwind {
    /// Out of the function.
    Continue,
    /// It cannot happen.
    Unreachable,
    /// Into an abort.
    Terminate,
    /// To a cleanup block.
    Cleanup(usize),
}

/// A result that holds for every implementation a call can reach.
#[derive(Debug, Clone, Copy, PartialEq, Eq, Structural)]
pub enum Contract {
    /// The length of the slice handed over.
    SliceLen,
    /// The larger of two numbers.
    Larger,
    /// The smaller of two numbers.
    Smaller,
    /// A number of bits of the value handed over.
    Counted,
    /// What a nonzero wrapper yields.
    Nonzero,
}

/// The contract of a function, by the crate it is from and its path there.
pub open spec fn spec_contract_of(krate: Seq<char>, path: Seq<char>) -> Option<Contract> {
    if krate != "core"@ {
        None
    } else if path == "slice::len"@ {
        Some(Contract::SliceLen)
    } else if path == "cmp::Ord::max"@ {
        Some(Contract::Larger)
    } else if path == "cmp::Ord::min"@ {
        Some(Contract::Smaller)
    } else if path == "intrinsics::ctlz"@ || path == "intrinsics::ctlz_nonzero"@ || path
        == "intrinsics::cttz"@ || path == "intrinsics::cttz_nonzero"@ || path
        == "intrinsics::ctpop"@ {
        Some(Contract::Counted)
    } else if path == "num::nonzero::get"@ {
        Some(Contract::Nonzero)
    } else {
        None
    }
}

/// The contract of a function, by the crate it is from and its path there.
///
/// Only functions whose result the checks downstream consume are listed, and
/// only ones whose contract guarantees the claim for every implementation the
/// resolution can reach: a slice's length is its metadata, and a nonzero
/// wrapper's validity invariant keeps what it yields apart from zero.
pub fn contract_of(krate: &str, path: &str) -> (r: Option<Contract>)
    ensures
        r == spec_contract_of(krate@, path@),
{
    if !text::same(krate, "core") {
        None
    } else if text::same(path, "slice::len") {
        Some(Contract::SliceLen)
    } else if text::same(path, "cmp::Ord::max") {
        Some(Contract::Larger)
    } else if text::same(path, "cmp::Ord::min") {
        Some(Contract::Smaller)
    } else if text::same(path, "intrinsics::ctlz") || text::same(path, "intrinsics::ctlz_nonzero")
        || text::same(path, "intrinsics::cttz") || text::same(path, "intrinsics::cttz_nonzero")
        || text::same(path, "intrinsics::ctpop") {
        Some(Contract::Counted)
    } else if text::same(path, "num::nonzero::get") {
        Some(Contract::Nonzero)
    } else {
        None
    }
}

/// A call, as far as the walk reads it.
#[derive(Debug)]
pub struct Call {
    /// The place the function is read from, where it is no constant.
    pub func: Option<Place>,
    /// The contract of what it calls.
    pub contract: Option<Contract>,
    /// The body it runs, where that is one the walk may read.
    pub body: Option<usize>,
    pub args: Vec<Operand>,
    pub destination: Place,
    pub target: Option<usize>,
    pub unwind: Unwind,
}

/// One arm of a branch.
#[derive(Debug, Clone, Copy, PartialEq, Eq, Structural)]
pub struct Arm {
    pub value: u128,
    pub target: usize,
}

/// A check the compiler wrote.
#[derive(Debug)]
pub struct Assert {
    pub cond: Operand,
    pub expected: bool,
    pub target: usize,
    pub unwind: Unwind,
    /// What the message reads.
    pub message: Vec<Operand>,
}

/// How a block ends.
#[derive(Debug)]
pub enum Terminator {
    Goto(usize),
    Switch(Operand, Vec<Arm>, usize),
    Assert(Assert),
    Call(Call),
    /// The place dropped, where control goes, where it goes in a coroutine
    /// that is dropped meanwhile, and where unwinding goes.
    Drop(Place, usize, Option<usize>, Unwind),
    Return,
    FalseEdge(usize, usize),
    FalseUnwind(usize, Unwind),
    Resume,
    /// A point that is never reached.
    Unreachable,
    /// An abort, or the end of a coroutine that is dropped.
    Stop,
    TailCall(Vec<Operand>),
    /// A coroutine's yield, with the blocks that can follow.
    Yield(Vec<usize>),
    /// Inline assembly, with the blocks that can follow and where unwinding
    /// goes.
    Assembly(Vec<usize>, Unwind),
}

/// A straight run of statements.
#[derive(Debug)]
pub struct Block {
    pub statements: Vec<Statement>,
    pub terminator: Option<Terminator>,
    /// Whether it runs only while a panic unwinds.
    pub cleanup: bool,
}

/// One function.
#[derive(Debug)]
pub struct Function {
    /// What each local is declared as: the place returned, the parameters,
    /// and the rest.
    pub locals: Vec<Option<Type>>,
    /// How many parameters there are.
    pub params: usize,
    pub blocks: Vec<Block>,
    /// The places the debug information names.
    pub named: Vec<Place>,
}

/// Every function the walk may read.
#[derive(Debug)]
pub struct Program {
    pub functions: Vec<Function>,
    pub enums: Vec<Enum>,
    /// The type of a truth value.
    pub boolean: Type,
    /// The type of a length.
    pub size: Type,
}

/// Where the value a function returns is left.
pub const RETURN_PLACE: usize = 0;

/// The blocks unwinding can go to.
pub open spec fn cleanup_of(unwind: Unwind) -> Seq<usize> {
    match unwind {
        Unwind::Cleanup(target) => seq![target],
        _ => Seq::empty(),
    }
}

/// An optional block as a list.
pub open spec fn listed(block: Option<usize>) -> Seq<usize> {
    match block {
        Some(target) => seq![target],
        None => Seq::empty(),
    }
}

/// Where the arms of a branch go.
pub open spec fn arm_targets(arms: Seq<Arm>) -> Seq<usize> {
    arms.map_values(|arm: Arm| arm.target)
}

impl Terminator {
    /// The blocks that can follow.
    pub open spec fn spec_successors(self) -> Seq<usize> {
        match self {
            Terminator::Goto(target) => seq![target],
            Terminator::Switch(_, arms, otherwise) => arm_targets(arms@).push(otherwise),
            Terminator::Assert(check) => seq![check.target] + cleanup_of(check.unwind),
            Terminator::Call(call) => listed(call.target) + cleanup_of(call.unwind),
            Terminator::Drop(_, target, drop, unwind) => seq![target] + cleanup_of(unwind) + listed(
                drop,
            ),
            Terminator::FalseEdge(taken, imaginary) => seq![taken, imaginary],
            Terminator::FalseUnwind(taken, unwind) => seq![taken] + cleanup_of(unwind),
            Terminator::Yield(blocks) => blocks@,
            Terminator::Assembly(blocks, _) => blocks@,
            _ => Seq::empty(),
        }
    }

    fn and_cleanup(out: Vec<usize>, unwind: Unwind) -> (r: Vec<usize>)
        ensures
            r@ == out@ + cleanup_of(unwind),
    {
        let mut out = out;
        let ghost was = out@;
        if let Unwind::Cleanup(target) = unwind {
            out.push(target);
        }
        assert(out@ =~= was + cleanup_of(unwind));
        out
    }

    /// The blocks that can follow.
    pub fn successors(&self) -> (r: Vec<usize>)
        ensures
            r@ == self.spec_successors(),
    {
        let mut out: Vec<usize> = Vec::new();
        match self {
            Terminator::Goto(target) => {
                out.push(*target);
            },
            Terminator::Switch(_, arms, otherwise) => {
                let mut i: usize = 0;
                while i < arms.len()
                    invariant
                        i <= arms@.len(),
                        out@ == arm_targets(arms@).take(i as int),
                    decreases arms@.len() - i,
                {
                    out.push(arms[i].target);
                    i += 1;
                    assert(out@ =~= arm_targets(arms@).take(i as int));
                }
                out.push(*otherwise);
            },
            Terminator::Assert(check) => {
                out.push(check.target);
                out = Terminator::and_cleanup(out, check.unwind);
            },
            Terminator::Call(call) => {
                if let Some(target) = call.target {
                    out.push(target);
                }
                assert(out@ =~= listed(call.target));
                out = Terminator::and_cleanup(out, call.unwind);
            },
            Terminator::Drop(_, target, drop, unwind) => {
                out.push(*target);
                out = Terminator::and_cleanup(out, *unwind);
                if let Some(drop) = drop {
                    out.push(*drop);
                }
            },
            Terminator::FalseEdge(taken, imaginary) => {
                out.push(*taken);
                out.push(*imaginary);
            },
            Terminator::FalseUnwind(taken, unwind) => {
                out.push(*taken);
                out = Terminator::and_cleanup(out, *unwind);
            },
            Terminator::Yield(blocks) | Terminator::Assembly(blocks, _) => {
                let mut i: usize = 0;
                while i < blocks.len()
                    invariant
                        i <= blocks@.len(),
                        out@ == blocks@.take(i as int),
                    decreases blocks@.len() - i,
                {
                    out.push(blocks[i]);
                    i += 1;
                    assert(out@ =~= blocks@.take(i as int));
                }
            },
            _ => {},
        }
        assert(out@ =~= self.spec_successors());
        out
    }
}

impl Operand {
    /// The type an operand is read at.
    pub open spec fn spec_ty(self, program: Program) -> Option<Type> {
        match self {
            Operand::Read(place, _) => place.ty,
            Operand::Constant(_, ty) => ty,
            Operand::Checks(_) => Some(program.boolean),
        }
    }

    /// The type an operand is read at.
    pub fn ty(&self, program: &Program) -> (r: Option<Type>)
        ensures
            r == self.spec_ty(*program),
    {
        match self {
            Operand::Read(place, _) => place.ty,
            Operand::Constant(_, ty) => *ty,
            Operand::Checks(_) => Some(program.boolean),
        }
    }

    /// The value of a constant, where it could be evaluated.
    pub open spec fn spec_constant(self) -> Option<Known> {
        match self {
            Operand::Constant(Some(bits), ty) => spec_value_at(ty, bits),
            _ => None,
        }
    }

    /// The value of a constant, where it could be evaluated.
    pub fn constant(&self) -> (r: Option<Known>)
        ensures
            r == self.spec_constant(),
            match r {
                Some(k) => k.wf(),
                None => true,
            },
    {
        match self {
            Operand::Constant(bits, ty) => match bits {
                Some(bits) => value_at(*ty, *bits),
                None => None,
            },
            _ => None,
        }
    }
}

impl Program {
    /// A truth value the folder is certain of.
    pub open spec fn spec_boolean(self, held: bool) -> Option<Known> {
        match self.boolean.spec_seed() {
            Some(seed) => Some(
                Known {
                    bits: if held {
                        1
                    } else {
                        0
                    },
                    ..seed
                },
            ),
            None => None,
        }
    }

    /// A truth value the folder is certain of.
    pub fn truth(&self, held: bool) -> (r: Option<Known>)
        ensures
            r == self.spec_boolean(held),
            match r {
                Some(k) => k.wf(),
                None => true,
            },
    {
        match self.boolean.seed() {
            Some(seed) => {
                proof {
                    value::ones_grow(1, seed.width as nat);
                    reveal_with_fuel(value::ones, 2);
                }
                let bits: u128 = if held {
                    1
                } else {
                    0
                };
                Some(Known { bits, ..seed })
            },
            None => None,
        }
    }

    /// The enum a type is.
    pub open spec fn spec_enum_of(self, ty: Option<Type>) -> Option<Enum> {
        match ty {
            Some(t) => match t.kind {
                Kind::Enum(at) => if at < self.enums@.len() {
                    Some(self.enums@[at as int])
                } else {
                    None
                },
                _ => None,
            },
            None => None,
        }
    }

    /// The enum a type is.
    pub fn enum_of(&self, ty: Option<Type>) -> (r: Option<&Enum>)
        ensures
            match r {
                Some(e) => self.spec_enum_of(ty) == Some(*e),
                None => self.spec_enum_of(ty) is None,
            },
    {
        match ty {
            Some(t) => match t.kind {
                Kind::Enum(at) => if at < self.enums.len() {
                    Some(&self.enums[at])
                } else {
                    None
                },
                _ => None,
            },
            None => None,
        }
    }
}

} // verus!
