//! The value domain the folder reasons in.
//!
//! Everything here is a claim about what a local can hold at one point, and
//! every claim is conservative: a value is only narrowed when the operation
//! that produced it guarantees the narrowing for every execution.

use vstd::prelude::*;

verus! {

/// How the values of a type read.
#[derive(Debug, Clone, Copy, PartialEq, Eq, Structural)]
pub enum Form {
    /// Truth values.
    Bool,
    /// Characters.
    Char,
    /// Integers whose top bit is a sign.
    Int,
    /// Integers without a sign.
    Uint,
}

/// A type whose values are plain integers.
#[derive(Debug, Clone, Copy, PartialEq, Eq, Structural)]
pub struct Ty {
    /// Tells two types apart.
    pub id: u32,
    /// How its values read.
    pub form: Form,
}

/// An operator on two values.
#[derive(Debug, Clone, Copy, PartialEq, Eq, Structural)]
pub enum BinOp {
    Add,
    Sub,
    Mul,
    Div,
    Rem,
    BitAnd,
    BitOr,
    BitXor,
    Shl,
    ShlUnchecked,
    Shr,
    ShrUnchecked,
    Eq,
    Ne,
    Lt,
    Le,
    Gt,
    Ge,
    /// One the folder does not read.
    Other,
}

/// How two values of one type stand to each other.
#[derive(Debug, Clone, Copy, PartialEq, Eq, Structural)]
pub enum Side {
    Less,
    Equal,
    Greater,
}

/// How two numbers stand to each other.
pub open spec fn side(a: int, b: int) -> Side {
    if a < b {
        Side::Less
    } else if a == b {
        Side::Equal
    } else {
        Side::Greater
    }
}

/// The number written with `width` ones in base two, which is the largest of
/// that width.
pub open spec fn ones(width: nat) -> nat
    decreases width,
{
    if width == 0 {
        0
    } else {
        2 * ones((width - 1) as nat) + 1
    }
}

/// How many values have a width.
pub open spec fn span(width: nat) -> nat {
    ones(width) + 1
}

/// Wider numbers reach further.
pub proof fn ones_grow(a: nat, b: nat)
    requires
        a <= b,
    ensures
        ones(a) <= ones(b),
        a < b ==> 2 * ones(a) < ones(b),
    decreases b,
{
    if a < b {
        ones_grow(a, (b - 1) as nat);
    }
}

/// Widths add up where spans multiply.
pub proof fn span_adds(a: nat, b: nat)
    ensures
        span(a + b) == span(a) * span(b),
    decreases b,
{
    if b > 0 {
        span_adds(a, (b - 1) as nat);
        let s = span(a) as int;
        let t = span((b - 1) as nat) as int;
        assert(s * (2 * t) == 2 * (s * t)) by (nonlinear_arith);
        assert(span(b) == 2 * t);
        assert(span(a + b) == 2 * span((a + b - 1) as nat));
    } else {
        assert(span(a) * 1 == span(a));
    }
}

/// The largest numbers of 128 bits and of one bit less.
proof fn ones_at_the_top()
    ensures
        ones(127) == i128::MAX,
        ones(128) == u128::MAX,
{
    assert(span(8) == 256) by {
        reveal_with_fuel(ones, 9);
    }
    assert(span(16) == 0x1_0000) by {
        span_adds(8, 8);
        assert(span(8) * span(8) == 256 * 256) by (nonlinear_arith)
            requires
                span(8) == 256,
        ;
    }
    assert(span(32) == 0x1_0000_0000) by {
        span_adds(16, 16);
        assert(span(16) * span(16) == 0x1_0000 * 0x1_0000) by (nonlinear_arith)
            requires
                span(16) == 0x1_0000,
        ;
    }
    assert(span(64) == 0x1_0000_0000_0000_0000) by {
        span_adds(32, 32);
        assert(span(32) * span(32) == 0x1_0000_0000 * 0x1_0000_0000) by (nonlinear_arith)
            requires
                span(32) == 0x1_0000_0000,
        ;
    }
    assert(span(128) == 0x1_0000_0000_0000_0000 * 0x1_0000_0000_0000_0000) by {
        span_adds(64, 64);
        assert(span(64) * span(64) == 0x1_0000_0000_0000_0000 * 0x1_0000_0000_0000_0000)
            by (nonlinear_arith)
            requires
                span(64) == 0x1_0000_0000_0000_0000,
        ;
    }
    assert(ones(128) == 2 * ones(127) + 1);
}

/// The largest number of 128 bits.
pub proof fn ones_fit(width: nat)
    requires
        width <= 128,
    ensures
        ones(width) <= u128::MAX,
        width == 128 ==> ones(width) == u128::MAX,
        width <= 127 ==> ones(width) <= i128::MAX,
        width == 127 ==> ones(width) == i128::MAX,
{
    ones_at_the_top();
    ones_grow(width, 128);
    if width <= 127 {
        ones_grow(width, 127);
    }
}

/// A number with every bit below its highest one set as well.
pub open spec fn filled(bits: nat) -> nat
    decreases bits,
{
    if bits == 0 {
        0
    } else {
        2 * filled(bits / 2) + 1
    }
}

/// The smallest number written with ones alone that is no smaller than another
/// is that one with every lower bit set.
proof fn ones_fill(bits: nat, k: nat)
    requires
        bits <= ones(k),
        k > 0 ==> ones((k - 1) as nat) < bits,
    ensures
        filled(bits) == ones(k),
    decreases k,
{
    if k > 0 {
        if k > 1 {
            assert(ones((k - 1) as nat) == 2 * ones((k - 2) as nat) + 1);
        }
        ones_fill(bits / 2, (k - 1) as nat);
    }
}

/// The largest number of a width.
pub fn all_ones(width: u32) -> (r: u128)
    requires
        width <= 128,
    ensures
        r == ones(width as nat),
{
    let mut r: u128 = 0;
    let mut i: u32 = 0;
    while i < width
        invariant
            i <= width <= 128,
            r == ones(i as nat),
        decreases width - i,
    {
        proof {
            ones_fit((i + 1) as nat);
        }
        r = 2 * r + 1;
        i += 1;
    }
    r
}

/// The low bits of a number.
pub open spec fn low_bits(bits: int, width: nat) -> int {
    bits % (span(width) as int)
}

/// Masks a value to the width of its type.
pub fn truncate(bits: u128, width: u32) -> (r: u128)
    ensures
        r == (if width >= 128 {
            bits as int
        } else {
            low_bits(bits as int, width as nat)
        }),
        width <= 128 ==> r == low_bits(bits as int, width as nat),
        width <= 128 ==> r <= ones(width as nat),
{
    if width >= 128 {
        proof {
            ones_fit(128);
            vstd::arithmetic::div_mod::lemma_small_mod(bits as nat, span(128));
        }
        bits
    } else {
        proof {
            ones_fit(width as nat);
        }
        let top: u128 = all_ones(width);
        bits % (top + 1)
    }
}

/// A value the folder is certain of.
#[derive(Debug, Clone, Copy, PartialEq, Eq, Structural)]
pub struct Known {
    /// The value, zero extended from the bit pattern of its type.
    pub bits: u128,
    /// The type it was read at, which decides how the bits compare.
    pub ty: Ty,
    /// The width of that type, in bits.
    pub width: u32,
}

impl Known {
    /// Whether the bits are those of a value of the type.
    pub open spec fn wf(self) -> bool {
        1 <= self.width <= 128 && self.bits <= ones(self.width as nat)
    }

    /// Whether two values are of the same type.
    pub open spec fn same(self, other: Known) -> bool {
        self.ty == other.ty && self.width == other.width
    }

    /// Whether the type reads its top bit as a sign.
    pub open spec fn signed(self) -> bool {
        self.ty.form is Int
    }

    /// The number that the value stands for.
    pub open spec fn val(self) -> int {
        if self.signed() && self.bits > ones((self.width - 1) as nat) {
            self.bits - span(self.width as nat)
        } else {
            self.bits as int
        }
    }

    /// The smallest number of the type.
    pub open spec fn min_val(self) -> int {
        if self.signed() {
            -(span((self.width - 1) as nat) as int)
        } else {
            0
        }
    }

    /// The largest number of the type.
    pub open spec fn max_val(self) -> int {
        if self.signed() {
            ones((self.width - 1) as nat) as int
        } else {
            ones(self.width as nat) as int
        }
    }

    /// Whether a number is one of the type.
    pub open spec fn fits(self, v: int) -> bool {
        self.min_val() <= v <= self.max_val()
    }

    /// The value of the same type that stands for a number.
    pub open spec fn at(self, v: int) -> Known {
        Known {
            bits: (if v >= 0 {
                v
            } else {
                v + span(self.width as nat)
            }) as u128,
            ..self
        }
    }

    /// The value of the same type that stands for a number, if there is one.
    pub open spec fn fitted(self, v: int) -> Option<Known> {
        if self.fits(v) {
            Some(self.at(v))
        } else {
            None
        }
    }

    /// A value stands for a number of its type, and no other value does.
    pub proof fn stands(self)
        requires
            self.wf(),
        ensures
            self.fits(self.val()),
            self.at(self.val()) == self,
            self.min_val() <= self.max_val(),
            self.max_val() <= u128::MAX,
            self.signed() ==> i128::MIN <= self.min_val() && self.max_val() <= i128::MAX,
    {
        ones_fit(self.width as nat);
        ones_fit((self.width - 1) as nat);
        reveal_with_fuel(ones, 2);
    }

    /// The value for a number of the type stands for that number.
    pub proof fn placed(self, v: int)
        requires
            self.wf(),
            self.fits(v),
        ensures
            self.at(v).wf(),
            self.at(v).val() == v,
            self.at(v).same(self),
    {
        ones_fit(self.width as nat);
        ones_fit((self.width - 1) as nat);
        reveal_with_fuel(ones, 2);
    }

    /// Values of one type that stand for one number are the same.
    pub proof fn told_apart(self, other: Known)
        requires
            self.wf(),
            other.wf(),
            self.same(other),
            self.val() == other.val(),
        ensures
            self == other,
    {
        self.stands();
        other.stands();
    }

    /// Whether the type reads its top bit as a sign.
    pub fn is_signed(self) -> (r: bool)
        ensures
            r == self.signed(),
    {
        match self.ty.form {
            Form::Int => true,
            _ => false,
        }
    }

    /// The value read as a signed integer.
    ///
    /// The bits are held zero extended, so the sign has to be put back.
    pub fn as_signed(self) -> (r: i128)
        requires
            self.wf(),
        ensures
            self.signed() ==> r == self.val(),
            r == (Known { ty: Ty { form: Form::Int, ..self.ty }, ..self }).val(),
    {
        proof {
            ones_fit(self.width as nat);
            ones_fit((self.width - 1) as nat);
            reveal_with_fuel(ones, 2);
        }
        let half: u128 = all_ones(self.width - 1);
        if self.bits > half {
            let all: u128 = all_ones(self.width);
            -((all - self.bits) as i128) - 1
        } else {
            self.bits as i128
        }
    }

    /// The value of the same type that stands for a number.
    fn signed_at(self, v: i128) -> (r: Known)
        requires
            self.wf(),
            self.signed(),
            self.fits(v as int),
        ensures
            r == self.at(v as int),
    {
        proof {
            ones_fit(self.width as nat);
            ones_fit((self.width - 1) as nat);
            reveal_with_fuel(ones, 2);
        }
        let bits: u128 = if v >= 0 {
            v as u128
        } else {
            all_ones(self.width) - ((-(v + 1)) as u128)
        };
        Known { bits, ..self }
    }

    /// Whether the value is the one a branch treats as true.
    pub fn truth(self) -> (r: bool)
        ensures
            r == (self.bits != 0),
    {
        self.bits != 0
    }

    /// How two values of the same type compare.
    pub open spec fn spec_order(self, other: Known) -> Option<Side> {
        if self.same(other) {
            Some(side(self.val(), other.val()))
        } else {
            None
        }
    }

    /// How two values of the same type compare.
    pub fn order(self, other: Known) -> (r: Option<Side>)
        requires
            self.wf(),
            other.wf(),
        ensures
            r == self.spec_order(other),
    {
        if self.ty != other.ty || self.width != other.width {
            return None;
        }
        if self.is_signed() {
            let a: i128 = self.as_signed();
            let b: i128 = other.as_signed();
            Some(
                if a < b {
                    Side::Less
                } else if a == b {
                    Side::Equal
                } else {
                    Side::Greater
                },
            )
        } else {
            Some(
                if self.bits < other.bits {
                    Side::Less
                } else if self.bits == other.bits {
                    Side::Equal
                } else {
                    Side::Greater
                },
            )
        }
    }

    /// The smallest value of this value's type.
    pub fn type_min(self) -> (r: Known)
        requires
            self.wf(),
        ensures
            r == self.at(self.min_val()),
            r.wf(),
    {
        proof {
            self.stands();
            self.placed(self.min_val());
            ones_fit(self.width as nat);
            ones_fit((self.width - 1) as nat);
            reveal_with_fuel(ones, 2);
        }
        let bits: u128 = if self.is_signed() {
            all_ones(self.width - 1) + 1
        } else {
            0
        };
        Known { bits, ..self }
    }

    /// The largest value of this value's type.
    pub fn type_max(self) -> (r: Known)
        requires
            self.wf(),
        ensures
            r == self.at(self.max_val()),
            r.wf(),
    {
        proof {
            self.stands();
            self.placed(self.max_val());
        }
        let bits: u128 = if self.is_signed() {
            all_ones(self.width - 1)
        } else {
            all_ones(self.width)
        };
        Known { bits, ..self }
    }

    /// The next value down, when the type has one.
    pub fn predecessor(self) -> (r: Option<Known>)
        requires
            self.wf(),
        ensures
            r == self.fitted(self.val() - 1),
            match r {
                Some(k) => k.wf(),
                None => true,
            },
    {
        proof {
            self.stands();
            ones_fit(self.width as nat);
            ones_fit((self.width - 1) as nat);
            reveal_with_fuel(ones, 2);
            if self.fits(self.val() - 1) {
                self.placed(self.val() - 1);
            }
        }
        if self == self.type_min() {
            proof {
                self.placed(self.min_val());
            }
            return None;
        }
        proof {
            if self.val() == self.min_val() {
                assert(self == self.at(self.min_val()));
            }
        }
        let bits: u128 = if self.bits == 0 {
            all_ones(self.width)
        } else {
            self.bits - 1
        };
        Some(Known { bits, ..self })
    }

    /// The next value up, when the type has one.
    pub fn successor(self) -> (r: Option<Known>)
        requires
            self.wf(),
        ensures
            r == self.fitted(self.val() + 1),
            match r {
                Some(k) => k.wf(),
                None => true,
            },
    {
        proof {
            self.stands();
            ones_fit(self.width as nat);
            ones_fit((self.width - 1) as nat);
            reveal_with_fuel(ones, 2);
            if self.fits(self.val() + 1) {
                self.placed(self.val() + 1);
            }
        }
        if self == self.type_max() {
            proof {
                self.placed(self.max_val());
            }
            return None;
        }
        proof {
            if self.val() == self.max_val() {
                assert(self == self.at(self.max_val()));
            }
        }
        let bits: u128 = if self.bits == all_ones(self.width) {
            0
        } else {
            self.bits + 1
        };
        Some(Known { bits, ..self })
    }

    /// What an arithmetic operator makes of two numbers.
    pub open spec fn outcome(op: BinOp, a: int, b: int) -> Option<int> {
        match op {
            BinOp::Add => Some(a + b),
            BinOp::Sub => Some(a - b),
            BinOp::Mul => Some(a * b),
            _ => None,
        }
    }

    /// The result of an arithmetic operator, when it lands inside the type.
    pub open spec fn spec_arith(self, op: BinOp, other: Known) -> Option<Known> {
        match Known::outcome(op, self.val(), other.val()) {
            Some(v) => if self.same(other) {
                self.fitted(v)
            } else {
                None
            },
            None => None,
        }
    }

    /// The result of an arithmetic operator, when it lands inside the type.
    ///
    /// The answer is the arithmetic one. An operation that would leave the
    /// type has no answer here rather than the wrapped one, so a range built
    /// from these ends never describes a wraparound it cannot hold.
    pub fn arith(self, op: BinOp, other: Known) -> (r: Option<Known>)
        requires
            self.wf(),
            other.wf(),
        ensures
            r == self.spec_arith(op, other),
            match r {
                Some(k) => k.wf(),
                None => true,
            },
    {
        if self.ty != other.ty || self.width != other.width {
            return None;
        }
        proof {
            self.stands();
            other.stands();
        }
        if self.is_signed() {
            let left: i128 = self.as_signed();
            let right: i128 = other.as_signed();
            let value: Option<i128> = match op {
                BinOp::Add => left.checked_add(right),
                BinOp::Sub => left.checked_sub(right),
                BinOp::Mul => left.checked_mul(right),
                _ => {
                    return None;
                },
            };
            match value {
                Some(value) => {
                    let least: i128 = self.type_min().as_signed();
                    let most: i128 = self.type_max().as_signed();
                    proof {
                        self.placed(self.min_val());
                        self.placed(self.max_val());
                    }
                    if value < least || value > most {
                        return None;
                    }
                    proof {
                        self.placed(value as int);
                    }
                    Some(self.signed_at(value))
                },
                None => None,
            }
        } else {
            let value: Option<u128> = match op {
                BinOp::Add => self.bits.checked_add(other.bits),
                BinOp::Sub => self.bits.checked_sub(other.bits),
                BinOp::Mul => self.bits.checked_mul(other.bits),
                _ => {
                    return None;
                },
            };
            match value {
                Some(value) => {
                    if value > self.type_max().bits {
                        return None;
                    }
                    proof {
                        self.placed(value as int);
                        assert(self.at(value as int).bits == value);
                    }
                    Some(Known { bits: value, ..self })
                },
                None => None,
            }
        }
    }

    /// The value shifted by a settled amount, when the shift means what the
    /// arithmetic says.
    pub open spec fn spec_shifted(self, op: BinOp, amount: u32) -> Option<Known> {
        if amount >= self.width {
            None
        } else {
            match op {
                BinOp::Shr | BinOp::ShrUnchecked => Some(
                    self.at(self.val() / (span(amount as nat) as int)),
                ),
                BinOp::Shl | BinOp::ShlUnchecked => if self.signed() && amount == self.width - 1 {
                    None
                } else {
                    self.fitted(self.val() * span(amount as nat))
                },
                _ => None,
            }
        }
    }

    /// Halving a number of a type some times leaves it in the type.
    pub proof fn shrinks(self, amount: nat)
        requires
            self.wf(),
        ensures
            self.fits(self.val() / (span(amount) as int)),
    {
        self.stands();
        let d = span(amount) as int;
        let v = self.val();
        assert(d >= 1);
        if v >= 0 {
            assert(0 <= v / d <= v) by (nonlinear_arith)
                requires
                    v >= 0,
                    d >= 1,
            ;
        } else {
            assert(v <= v / d < 0) by (nonlinear_arith)
                requires
                    v < 0,
                    d >= 1,
            ;
        }
    }

    /// The value shifted by a settled amount, when the shift means what the
    /// arithmetic says.
    ///
    /// Both directions are monotonic, so an end of a range shifted this way
    /// is still an end of the shifted range. A shift as wide as the type is
    /// refused: the machine masks the amount there and the arithmetic does
    /// not, and a claim drawn from the wrong one drops a panic that is real.
    /// Shifting left multiplies, so it is answered as a product and gives
    /// the claim up where the product leaves the type.
    pub fn shifted(self, op: BinOp, amount: u32) -> (r: Option<Known>)
        requires
            self.wf(),
        ensures
            r == self.spec_shifted(op, amount),
            match r {
                Some(k) => k.wf(),
                None => true,
            },
    {
        if amount >= self.width {
            return None;
        }
        proof {
            self.stands();
            ones_fit(amount as nat);
            ones_grow(amount as nat, (self.width - 1) as nat);
            ones_fit((self.width - 1) as nat);
            ones_fit(self.width as nat);
        }
        let step: u128 = all_ones(amount) + 1;
        match op {
            BinOp::Shr | BinOp::ShrUnchecked => {
                let ghost v = self.val();
                let ghost d = span(amount as nat) as int;
                proof {
                    self.shrinks(amount as nat);
                    self.placed(v / d);
                }
                if self.is_signed() {
                    let value: i128 = self.as_signed();
                    if value >= 0 {
                        let q: u128 = (value as u128) / step;
                        Some(Known { bits: q, ..self })
                    } else {
                        // The quotient is rounded down, so a negative value
                        // is divided by way of its distance below zero.
                        let under: u128 = (-(value + 1)) as u128;
                        let q: u128 = under / step;
                        proof {
                            let w = -(v + 1);
                            assert(v / d == -(w / d) - 1) by (nonlinear_arith)
                                requires
                                    d >= 1,
                                    w == -(v + 1),
                                    w >= 0,
                            ;
                            assert(w / d <= w) by (nonlinear_arith)
                                requires
                                    d >= 1,
                                    w >= 0,
                            ;
                            assert(w <= i128::MAX);
                        }
                        Some(self.signed_at(-(q as i128) - 1))
                    }
                } else {
                    Some(Known { bits: self.bits / step, ..self })
                }
            },
            BinOp::Shl | BinOp::ShlUnchecked => {
                // A factor that reads as negative is the sign bit itself,
                // and multiplying by it reverses the order the ends rely on.
                if self.is_signed() && amount == self.width - 1 {
                    return None;
                }
                proof {
                    if self.signed() {
                        ones_grow(amount as nat, (self.width - 2) as nat);
                        ones_grow((self.width - 2) as nat, (self.width - 1) as nat);
                    } else {
                        ones_grow((self.width - 1) as nat, self.width as nat);
                    }
                    assert(self.fits(step as int));
                    self.placed(step as int);
                    assert(self.at(step as int).bits == step);
                }
                let factor = Known { bits: step, ..self };
                self.arith(BinOp::Mul, factor)
            },
            _ => None,
        }
    }

    /// The value with every bit below its highest one set as well, unless it
    /// is negative.
    pub open spec fn spec_saturated(self) -> Option<Known> {
        if self.val() >= 0 {
            Some(Known { bits: filled(self.bits as nat) as u128, ..self })
        } else {
            None
        }
    }

    /// The value with every bit below its highest one set as well.
    ///
    /// Setting or flipping the bits of two values never reaches above the
    /// highest bit either of them carries, so this is what bounds an `or`
    /// or an `xor` from above. A negative value has no such bound, since
    /// its top bit is the sign.
    pub fn saturated(self) -> (r: Option<Known>)
        requires
            self.wf(),
        ensures
            r == self.spec_saturated(),
            match r {
                Some(k) => k.wf() && k.val() == k.bits,
                None => true,
            },
    {
        proof {
            self.stands();
        }
        if self.is_signed() && self.as_signed() < 0 {
            return None;
        }
        let mut filled: u128 = 0;
        let mut k: u32 = 0;
        while filled < self.bits
            invariant
                k <= self.width,
                self.wf(),
                self.val() >= 0,
                self.signed() ==> k <= self.width - 1,
                filled == ones(k as nat),
                k > 0 ==> ones((k - 1) as nat) < self.bits,
            decreases self.width - k,
        {
            proof {
                self.stands();
                ones_fit(self.width as nat);
                let limit: nat = if self.signed() {
                    (self.width - 1) as nat
                } else {
                    self.width as nat
                };
                assert(self.bits <= ones(limit));
                if k >= limit {
                    ones_grow(limit, k as nat);
                }
                ones_grow((k + 1) as nat, self.width as nat);
            }
            filled = 2 * filled + 1;
            k += 1;
        }
        proof {
            ones_grow(k as nat, self.width as nat);
            if self.signed() {
                ones_grow(k as nat, (self.width - 1) as nat);
            }
            ones_fill(self.bits as nat, k as nat);
        }
        Some(Known { bits: filled, ..self })
    }

    /// The quotient of two values the type reads as unsigned.
    pub open spec fn spec_quotient(self, other: Known) -> Option<Known> {
        if self.ty != other.ty || self.signed() || other.bits == 0 {
            None
        } else {
            Some(Known { bits: self.bits / other.bits, ..self })
        }
    }

    /// The quotient of two values the type reads as unsigned.
    ///
    /// Signed division has a corner the type cannot hold, so it is left to
    /// the check the compiler writes for it.
    pub fn quotient(self, other: Known) -> (r: Option<Known>)
        requires
            self.wf(),
        ensures
            r == self.spec_quotient(other),
            match r {
                Some(k) => k.wf(),
                None => true,
            },
    {
        if self.ty != other.ty || self.is_signed() || other.bits == 0 {
            return None;
        }
        proof {
            let a = self.bits as int;
            let b = other.bits as int;
            assert(a / b <= a) by (nonlinear_arith)
                requires
                    a >= 0,
                    b >= 1,
            ;
        }
        Some(Known { bits: self.bits / other.bits, ..self })
    }

    /// The smaller of two values of the same type.
    pub open spec fn spec_lesser(self, other: Known) -> Option<Known> {
        match self.spec_order(other) {
            Some(Side::Greater) => Some(other),
            Some(_) => Some(self),
            None => None,
        }
    }

    /// The smaller of two values of the same type.
    pub fn lesser(self, other: Known) -> (r: Option<Known>)
        requires
            self.wf(),
            other.wf(),
        ensures
            r == self.spec_lesser(other),
    {
        match self.order(other) {
            Some(Side::Greater) => Some(other),
            Some(_) => Some(self),
            None => None,
        }
    }

    /// The larger of two values of the same type.
    pub open spec fn spec_greater(self, other: Known) -> Option<Known> {
        match self.spec_order(other) {
            Some(Side::Greater) => Some(self),
            Some(_) => Some(other),
            None => None,
        }
    }

    /// The larger of two values of the same type.
    pub fn greater(self, other: Known) -> (r: Option<Known>)
        requires
            self.wf(),
            other.wf(),
        ensures
            r == self.spec_greater(other),
    {
        match self.order(other) {
            Some(Side::Greater) => Some(self),
            Some(_) => Some(other),
            None => None,
        }
    }

    /// Whether the value reads as zero or above.
    pub fn nonnegative(self) -> (r: bool)
        requires
            self.wf(),
        ensures
            r == (self.val() >= 0),
    {
        !self.is_signed() || self.as_signed() >= 0
    }

    /// Zero, read at this value's type.
    pub fn zero(self) -> (r: Known)
        requires
            self.wf(),
        ensures
            r == (Known { bits: 0, ..self }),
            r.wf(),
            r.val() == 0,
    {
        Known { bits: 0, ..self }
    }
}

/// An inclusive range a value is known to lie in.
#[derive(Debug, Clone, Copy, PartialEq, Eq, Structural)]
pub struct Bounds {
    pub lo: Known,
    pub hi: Known,
}

impl Bounds {
    /// Whether the ends are of one type, and ordered.
    pub open spec fn wf(self) -> bool {
        self.lo.wf() && self.hi.wf() && self.lo.same(self.hi) && self.lo.val() <= self.hi.val()
    }

    /// Whether a value lies inside the range.
    pub open spec fn holds(self, k: Known) -> bool {
        k.same(self.lo) && self.lo.val() <= k.val() <= self.hi.val()
    }

    /// A range, when its ends are ordered.
    pub open spec fn spec_new(lo: Known, hi: Known) -> Option<Bounds> {
        if lo.same(hi) && lo.val() <= hi.val() {
            Some(Bounds { lo, hi })
        } else {
            None
        }
    }

    /// A range, when its ends are ordered.
    pub fn new(lo: Known, hi: Known) -> (r: Option<Bounds>)
        requires
            lo.wf(),
            hi.wf(),
        ensures
            r == Bounds::spec_new(lo, hi),
    {
        match lo.order(hi) {
            Some(Side::Less) => Some(Bounds { lo, hi }),
            Some(Side::Equal) => Some(Bounds { lo, hi }),
            _ => None,
        }
    }

    /// Whether a value lies inside the range, when it is of the range's type.
    pub open spec fn spec_admits(self, value: Known) -> Option<bool> {
        if value.same(self.lo) {
            Some(self.holds(value))
        } else {
            None
        }
    }

    /// Whether a value lies inside the range, when it is of the range's type.
    pub fn admits(self, value: Known) -> (r: Option<bool>)
        requires
            self.wf(),
            value.wf(),
        ensures
            r == self.spec_admits(value),
    {
        match (self.lo.order(value), value.order(self.hi)) {
            (Some(above), Some(below)) => Some(above != Side::Greater && below != Side::Greater),
            _ => None,
        }
    }

    /// The smallest range holding both.
    pub open spec fn spec_hull(self, other: Bounds) -> Option<Bounds> {
        if self.lo.same(other.lo) {
            Some(
                Bounds {
                    lo: if self.lo.val() > other.lo.val() {
                        other.lo
                    } else {
                        self.lo
                    },
                    hi: if self.hi.val() > other.hi.val() {
                        self.hi
                    } else {
                        other.hi
                    },
                },
            )
        } else {
            None
        }
    }

    /// The smallest range holding both.
    pub fn hull(self, other: Bounds) -> (r: Option<Bounds>)
        requires
            self.wf(),
            other.wf(),
        ensures
            r == self.spec_hull(other),
            match r {
                Some(b) => b.wf(),
                None => true,
            },
    {
        match (self.lo.lesser(other.lo), self.hi.greater(other.hi)) {
            (Some(lo), Some(hi)) => Bounds::new(lo, hi),
            _ => None,
        }
    }

    /// The part both ranges hold, when they meet at all.
    pub open spec fn spec_overlap(self, other: Bounds) -> Option<Bounds> {
        if self.lo.same(other.lo) {
            Bounds::spec_new(
                if self.lo.val() > other.lo.val() {
                    self.lo
                } else {
                    other.lo
                },
                if self.hi.val() > other.hi.val() {
                    other.hi
                } else {
                    self.hi
                },
            )
        } else {
            None
        }
    }

    /// The part both ranges hold, when they meet at all.
    pub fn overlap(self, other: Bounds) -> (r: Option<Bounds>)
        requires
            self.wf(),
            other.wf(),
        ensures
            r == self.spec_overlap(other),
            match r {
                Some(b) => b.wf(),
                None => true,
            },
    {
        match (self.lo.greater(other.lo), self.hi.lesser(other.hi)) {
            (Some(lo), Some(hi)) => Bounds::new(lo, hi),
            _ => None,
        }
    }

    /// A range with one value in it.
    pub open spec fn single(k: Known) -> Bounds {
        Bounds { lo: k, hi: k }
    }

    /// The smallest range holding the first `n` of a list of values.
    pub open spec fn cover(values: Seq<Known>, n: nat) -> Option<Bounds>
        decreases n,
    {
        if n == 0 {
            None
        } else if n == 1 {
            Some(Bounds::single(values[0]))
        } else {
            match Bounds::cover(values, (n - 1) as nat) {
                Some(b) => b.spec_hull(Bounds::single(values[n - 1])),
                None => None,
            }
        }
    }

    /// The smallest range holding every value given.
    ///
    /// The corners of an arithmetic result are what this is read with, so
    /// the slice is a handful of values and the walk over it is as short.
    pub fn covering(values: &[Known]) -> (r: Option<Bounds>)
        requires
            forall|i: int| 0 <= i < values@.len() ==> (#[trigger] values@[i]).wf(),
        ensures
            r == Bounds::cover(values@, values@.len()),
            match r {
                Some(b) => b.wf(),
                None => true,
            },
    {
        if values.len() == 0 {
            return None;
        }
        assert(values@[0].wf());
        let mut span = Bounds { lo: values[0], hi: values[0] };
        let mut i: usize = 1;
        while i < values.len()
            invariant
                1 <= i <= values@.len(),
                forall|i: int| 0 <= i < values@.len() ==> (#[trigger] values@[i]).wf(),
                span.wf(),
                Bounds::cover(values@, i as nat) == Some(span),
            decreases values.len() - i,
        {
            assert(values@[i as int].wf());
            match span.hull(Bounds { lo: values[i], hi: values[i] }) {
                Some(wider) => {
                    span = wider;
                },
                None => {
                    proof {
                        uncovered(values@, (i + 1) as nat, values@.len());
                    }
                    return None;
                },
            }
            i += 1;
        }
        Some(span)
    }
}

/// Values that no range covers leave none that covers more.
proof fn uncovered(values: Seq<Known>, i: nat, n: nat)
    requires
        1 <= i <= n,
        Bounds::cover(values, i) is None,
    ensures
        Bounds::cover(values, n) is None,
    decreases n,
{
    if i < n {
        uncovered(values, i, (n - 1) as nat);
    }
}

/// A local of a body, or a place it is tracked at.
#[derive(Debug, Clone, Copy, PartialEq, Eq, Structural)]
pub struct Local(pub usize);

/// How a value relates to the length of a slice.
#[derive(Debug, Clone, Copy, PartialEq, Eq, Structural)]
pub enum LenRel {
    /// Strictly less than the length, which is what an index check asks.
    Below,
    /// At most the length, which is what a range end check asks.
    AtMost,
}

/// How a value is ordered against the length of one slice.
#[derive(Debug, Clone, Copy, PartialEq, Eq, Structural)]
pub struct Rank {
    pub rel: LenRel,
    /// The local the slice is behind.
    pub of: Local,
}

/// How a value is ordered against the lengths of slices, two at the most.
#[derive(Debug, Clone, Copy, PartialEq, Eq, Structural)]
pub enum Ranks {
    Empty,
    One(Rank),
    Two(Rank, Rank),
}

/// The stronger of two orderings.
pub open spec fn stronger(a: LenRel, b: LenRel) -> LenRel {
    if a is Below {
        a
    } else {
        b
    }
}

/// The weaker of two orderings.
pub open spec fn weaker(a: LenRel, b: LenRel) -> LenRel {
    if a is Below {
        b
    } else {
        a
    }
}

impl Ranks {
    /// Up to two orderings, in order.
    pub open spec fn spec_pack(a: Option<Rank>, b: Option<Rank>) -> Ranks {
        match (a, b) {
            (Some(x), Some(y)) => Ranks::Two(x, y),
            (Some(x), None) => Ranks::One(x),
            (None, Some(y)) => Ranks::One(y),
            (None, None) => Ranks::Empty,
        }
    }

    fn pack(a: Option<Rank>, b: Option<Rank>) -> (r: Ranks)
        ensures
            r == Ranks::spec_pack(a, b),
    {
        match (a, b) {
            (Some(x), Some(y)) => Ranks::Two(x, y),
            (Some(x), None) => Ranks::One(x),
            (None, Some(y)) => Ranks::One(y),
            (None, None) => Ranks::Empty,
        }
    }

    /// The first ordering held.
    pub open spec fn spec_first(self) -> Option<Rank> {
        match self {
            Ranks::Empty => None,
            Ranks::One(a) => Some(a),
            Ranks::Two(a, _) => Some(a),
        }
    }

    /// The second ordering held.
    pub open spec fn spec_second(self) -> Option<Rank> {
        match self {
            Ranks::Two(_, b) => Some(b),
            _ => None,
        }
    }

    /// Nothing held.
    pub fn none_held() -> (r: Ranks)
        ensures
            r is Empty,
    {
        Ranks::Empty
    }

    /// One ordering.
    pub fn of(rel: LenRel, of: Local) -> (r: Ranks)
        ensures
            r == Ranks::One(Rank { rel, of }),
    {
        Ranks::One(Rank { rel, of })
    }

    /// Whether nothing is held.
    pub fn is_empty(self) -> (r: bool)
        ensures
            r == (self is Empty),
    {
        match self {
            Ranks::Empty => true,
            _ => false,
        }
    }

    /// The first ordering held.
    pub fn first(self) -> (r: Option<Rank>)
        ensures
            r == self.spec_first(),
    {
        match self {
            Ranks::Empty => None,
            Ranks::One(a) => Some(a),
            Ranks::Two(a, _) => Some(a),
        }
    }

    /// The second ordering held.
    pub fn second(self) -> (r: Option<Rank>)
        ensures
            r == self.spec_second(),
    {
        match self {
            Ranks::Two(_, b) => Some(b),
            _ => None,
        }
    }

    /// The ordering held against a slice, if there is one.
    pub open spec fn spec_against(self, of: Local) -> Option<LenRel> {
        match self {
            Ranks::Empty => None,
            Ranks::One(a) => if a.of == of {
                Some(a.rel)
            } else {
                None
            },
            Ranks::Two(a, b) => if a.of == of {
                Some(a.rel)
            } else if b.of == of {
                Some(b.rel)
            } else {
                None
            },
        }
    }

    /// The ordering held against a slice.
    pub fn against(self, of: Local) -> (r: Option<LenRel>)
        ensures
            r == self.spec_against(of),
    {
        if let Some(held) = self.first() {
            if held.of == of {
                return Some(held.rel);
            }
        }
        if let Some(held) = self.second() {
            if held.of == of {
                return Some(held.rel);
            }
        }
        None
    }

    /// The orderings with one more: the stronger of the two where the slice
    /// is already measured against, and nothing new where there is no room.
    pub open spec fn with(self, rel: LenRel, of: Local) -> Ranks {
        match self {
            Ranks::Empty => Ranks::One(Rank { rel, of }),
            Ranks::One(a) => if a.of == of {
                Ranks::One(Rank { rel: stronger(a.rel, rel), of })
            } else {
                Ranks::Two(a, Rank { rel, of })
            },
            Ranks::Two(a, b) => if a.of == of {
                Ranks::Two(Rank { rel: stronger(a.rel, rel), of }, b)
            } else if b.of == of {
                Ranks::Two(a, Rank { rel: stronger(b.rel, rel), of })
            } else {
                self
            },
        }
    }

    /// Records one more ordering.
    pub fn add(&mut self, rel: LenRel, of: Local)
        ensures
            *final(self) == old(self).with(rel, of),
    {
        let now = match *self {
            Ranks::Empty => Ranks::One(Rank { rel, of }),
            Ranks::One(a) => if a.of == of {
                Ranks::One(Ranks::strengthened(a, rel))
            } else {
                Ranks::Two(a, Rank { rel, of })
            },
            Ranks::Two(a, b) => if a.of == of {
                Ranks::Two(Ranks::strengthened(a, rel), b)
            } else if b.of == of {
                Ranks::Two(a, Ranks::strengthened(b, rel))
            } else {
                *self
            },
        };
        *self = now;
    }

    fn strengthened(rank: Rank, rel: LenRel) -> (r: Rank)
        ensures
            r == (Rank { rel: stronger(rank.rel, rel), of: rank.of }),
    {
        match rank.rel {
            LenRel::Below => rank,
            LenRel::AtMost => Rank { rel, of: rank.of },
        }
    }

    /// An ordering, unless it leans on a local.
    pub open spec fn apart(rank: Option<Rank>, of: Local) -> Option<Rank> {
        match rank {
            Some(held) => if held.of == of {
                None
            } else {
                Some(held)
            },
            None => None,
        }
    }

    /// The orderings that do not lean on a local.
    pub open spec fn without(self, of: Local) -> Ranks {
        Ranks::spec_pack(Ranks::apart(self.spec_first(), of), Ranks::apart(self.spec_second(), of))
    }

    /// Drops what leans on a local.
    pub fn forget(&mut self, of: Local)
        ensures
            *final(self) == old(self).without(of),
    {
        let a = match self.first() {
            Some(held) => if held.of == of {
                None
            } else {
                Some(held)
            },
            None => None,
        };
        let b = match self.second() {
            Some(held) => if held.of == of {
                None
            } else {
                Some(held)
            },
            None => None,
        };
        *self = Ranks::pack(a, b);
    }

    /// An ordering at the weaker of itself and the one held here.
    pub open spec fn spec_weakened(self, rank: Option<Rank>) -> Option<Rank> {
        match rank {
            Some(held) => match self.spec_against(held.of) {
                Some(rel) => Some(Rank { rel: weaker(held.rel, rel), of: held.of }),
                None => None,
            },
            None => None,
        }
    }

    /// What both agree on, at the weaker of the two.
    pub open spec fn spec_joined(self, other: Ranks) -> Ranks {
        Ranks::spec_pack(
            other.spec_weakened(self.spec_first()),
            other.spec_weakened(self.spec_second()),
        )
    }

    /// What both agree on, at the weaker of the two.
    pub fn joined(self, other: Ranks) -> (r: Ranks)
        ensures
            r == self.spec_joined(other),
    {
        Ranks::pack(other.weakened(self.first()), other.weakened(self.second()))
    }

    /// One ordering at the weaker of itself and the one held here.
    fn weakened(self, rank: Option<Rank>) -> (r: Option<Rank>)
        ensures
            r == self.spec_weakened(rank),
    {
        match rank {
            Some(held) => match self.against(held.of) {
                Some(other) => {
                    let rel = match held.rel {
                        LenRel::Below => other,
                        LenRel::AtMost => LenRel::AtMost,
                    };
                    Some(Rank { rel, of: held.of })
                },
                None => None,
            },
            None => None,
        }
    }

    /// Whether every ordering holds of a value, where a slice is as long as
    /// what is measured of the local it is behind.
    pub open spec fn holds(self, v: int, measure: spec_fn(Local) -> int) -> bool {
        ranked(self.spec_first(), v, measure) && ranked(self.spec_second(), v, measure)
    }
}

/// Whether an ordering holds of a value.
pub open spec fn ranked(rank: Option<Rank>, v: int, measure: spec_fn(Local) -> int) -> bool {
    match rank {
        Some(held) => match held.rel {
            LenRel::Below => v < measure(held.of),
            LenRel::AtMost => v <= measure(held.of),
        },
        None => true,
    }
}

/// What a local is known about.
///
/// A branch teaches the arm it guards something its condition never states
/// outright: past `if rhs != 0`, the divisor is not zero, which is the fact
/// the division's own check is asking for.
#[derive(Debug, Clone, Copy, PartialEq, Eq, Structural)]
pub enum Claim {
    /// Exactly this value.
    Exact(Known),
    /// Anything but this value.
    Other(Known),
    /// A value inside an inclusive range.
    Within(Bounds),
    /// The length of the slice behind another local.
    Length(Local),
}

/// The values at which a widening step stops before it reaches the end of a
/// type.
#[derive(Debug)]
pub struct Thresholds {
    pub marks: Vec<u128>,
}

impl Thresholds {
    /// No stops.
    pub fn none() -> (r: Thresholds)
        ensures
            r.marks@ == Seq::<u128>::empty(),
    {
        Thresholds { marks: Vec::new() }
    }

    /// Records one more stop.
    pub fn add(&mut self, bits: u128)
        ensures
            final(self).marks@ == old(self).marks@.push(bits),
    {
        self.marks.push(bits);
    }

    /// The nearest of the first `n` stops at or above a value, or the end of
    /// its type.
    pub open spec fn above(marks: Seq<u128>, now: Known, n: nat) -> Known
        decreases n,
    {
        if n == 0 {
            now.at(now.max_val())
        } else {
            let best = Thresholds::above(marks, now, (n - 1) as nat);
            let stop = Known { bits: marks[n - 1], ..now };
            if stop.wf() && now.val() <= stop.val() && stop.val() < best.val() {
                stop
            } else {
                best
            }
        }
    }

    /// The nearest of the first `n` stops at or below a value, or the end of
    /// its type.
    pub open spec fn below(marks: Seq<u128>, now: Known, n: nat) -> Known
        decreases n,
    {
        if n == 0 {
            now.at(now.min_val())
        } else {
            let best = Thresholds::below(marks, now, (n - 1) as nat);
            let stop = Known { bits: marks[n - 1], ..now };
            if stop.wf() && stop.val() <= now.val() && best.val() < stop.val() {
                stop
            } else {
                best
            }
        }
    }

    /// The nearest stop at or above a value, or the end of its type.
    fn next_above(&self, now: Known) -> (r: Known)
        requires
            now.wf(),
        ensures
            r == Thresholds::above(self.marks@, now, self.marks@.len()),
            r.wf(),
            r.same(now),
            now.val() <= r.val(),
    {
        proof {
            now.stands();
            now.placed(now.max_val());
        }
        let top: u128 = all_ones(now.width);
        let mut best = now.type_max();
        let mut i: usize = 0;
        while i < self.marks.len()
            invariant
                i <= self.marks@.len(),
                now.wf(),
                top == ones(now.width as nat),
                best.wf(),
                best.same(now),
                now.val() <= best.val(),
                best == Thresholds::above(self.marks@, now, i as nat),
            decreases self.marks.len() - i,
        {
            if self.marks[i] <= top {
                let stop = Known { bits: self.marks[i], ..now };
                let reached = match now.order(stop) {
                    Some(Side::Greater) => false,
                    _ => true,
                };
                let nearer = match stop.order(best) {
                    Some(Side::Less) => true,
                    _ => false,
                };
                if reached && nearer {
                    best = stop;
                }
            }
            i += 1;
        }
        best
    }

    /// The nearest stop at or below a value, or the end of its type.
    fn next_below(&self, now: Known) -> (r: Known)
        requires
            now.wf(),
        ensures
            r == Thresholds::below(self.marks@, now, self.marks@.len()),
            r.wf(),
            r.same(now),
            r.val() <= now.val(),
    {
        proof {
            now.stands();
            now.placed(now.min_val());
        }
        let top: u128 = all_ones(now.width);
        let mut best = now.type_min();
        let mut i: usize = 0;
        while i < self.marks.len()
            invariant
                i <= self.marks@.len(),
                now.wf(),
                top == ones(now.width as nat),
                best.wf(),
                best.same(now),
                best.val() <= now.val(),
                best == Thresholds::below(self.marks@, now, i as nat),
            decreases self.marks.len() - i,
        {
            if self.marks[i] <= top {
                let stop = Known { bits: self.marks[i], ..now };
                let reached = match stop.order(now) {
                    Some(Side::Greater) => false,
                    _ => true,
                };
                let nearer = match best.order(stop) {
                    Some(Side::Less) => true,
                    _ => false,
                };
                if reached && nearer {
                    best = stop;
                }
            }
            i += 1;
        }
        best
    }
}

impl Claim {
    /// Whether the values named are values of their types.
    pub open spec fn wf(self) -> bool {
        match self {
            Claim::Exact(known) => known.wf(),
            Claim::Other(known) => known.wf(),
            Claim::Within(bounds) => bounds.wf(),
            Claim::Length(_) => true,
        }
    }

    /// Whether the claim admits a value, where a length is what is measured of
    /// the local it names.
    pub open spec fn allows(self, k: Known, measure: spec_fn(Local) -> int) -> bool {
        match self {
            Claim::Exact(known) => k == known,
            Claim::Other(known) => k.same(known) && k != known,
            Claim::Within(bounds) => bounds.holds(k),
            Claim::Length(of) => k.val() == measure(of),
        }
    }

    /// The value, when it is settled.
    pub open spec fn spec_exact(self) -> Option<Known> {
        match self {
            Claim::Exact(known) => Some(known),
            _ => None,
        }
    }

    /// The value, when it is settled.
    pub fn exact(self) -> (r: Option<Known>)
        ensures
            r == self.spec_exact(),
    {
        match self {
            Claim::Exact(known) => Some(known),
            _ => None,
        }
    }

    /// The claim that a value is anything but one.
    pub open spec fn spec_other_than(known: Known) -> Claim {
        if known.ty.form is Bool && known.bits <= 1 {
            Claim::Exact(Known { bits: (1 - known.bits) as u128, ..known })
        } else {
            Claim::Other(known)
        }
    }

    /// Records that a value is anything but `known`.
    ///
    /// A `bool` has only two values, so ruling one out settles the other.
    pub fn other_than(known: Known) -> (r: Claim)
        requires
            known.wf(),
        ensures
            r == Claim::spec_other_than(known),
            r.wf(),
    {
        proof {
            reveal_with_fuel(ones, 2);
            ones_grow(1, known.width as nat);
        }
        match known.ty.form {
            Form::Bool => if known.bits <= 1 {
                Claim::Exact(Known { bits: 1 - known.bits, ..known })
            } else {
                Claim::Other(known)
            },
            _ => Claim::Other(known),
        }
    }

    /// Whether forgetting `local` invalidates this claim.
    pub open spec fn leaning(self, local: Local) -> bool {
        self == Claim::Length(local)
    }

    /// Whether forgetting `local` invalidates this claim.
    pub fn leans_on(self, local: Local) -> (r: bool)
        ensures
            r == self.leaning(local),
    {
        match self {
            Claim::Length(other) => other == local,
            _ => false,
        }
    }

    /// A value the claim names.
    pub open spec fn spec_anchor(self) -> Option<Known> {
        match self {
            Claim::Exact(known) => Some(known),
            Claim::Other(known) => Some(known),
            Claim::Within(bounds) => Some(bounds.lo),
            Claim::Length(_) => None,
        }
    }

    /// The type the claim is written at, when it names one.
    pub open spec fn spec_ty(self) -> Option<Ty> {
        match self.spec_anchor() {
            Some(known) => Some(known.ty),
            None => None,
        }
    }

    /// The type the claim is written at, when it names one.
    pub fn ty(self) -> (r: Option<Ty>)
        ensures
            r == self.spec_ty(),
    {
        match self.anchor() {
            Some(known) => Some(known.ty),
            None => None,
        }
    }

    /// A value the claim names, read for the type it is written at.
    pub fn anchor(self) -> (r: Option<Known>)
        ensures
            r == self.spec_anchor(),
    {
        match self {
            Claim::Exact(known) => Some(known),
            Claim::Other(known) => Some(known),
            Claim::Within(bounds) => Some(bounds.lo),
            Claim::Length(_) => None,
        }
    }

    /// The range the claim pins the value to, when it is one.
    pub open spec fn spec_bounds(self) -> Option<Bounds> {
        match self {
            Claim::Exact(known) => Some(Bounds::single(known)),
            Claim::Within(bounds) => Some(bounds),
            _ => None,
        }
    }

    /// The range the claim pins the value to, when it is one.
    pub fn bounds(self) -> (r: Option<Bounds>)
        ensures
            r == self.spec_bounds(),
    {
        match self {
            Claim::Exact(known) => Some(Bounds { lo: known, hi: known }),
            Claim::Within(bounds) => Some(bounds),
            _ => None,
        }
    }

    /// Whether the claim admits a value, when it is of the claim's type.
    pub open spec fn spec_admits(self, value: Known) -> Option<bool> {
        match self {
            Claim::Exact(known) => if known.same(value) {
                Some(known == value)
            } else {
                None
            },
            Claim::Other(known) => if known.same(value) {
                Some(known != value)
            } else {
                None
            },
            Claim::Within(bounds) => bounds.spec_admits(value),
            Claim::Length(_) => None,
        }
    }

    /// Whether the claim admits a value, when it is of the claim's type.
    pub fn admits(self, value: Known) -> (r: Option<bool>)
        requires
            self.wf(),
            value.wf(),
        ensures
            r == self.spec_admits(value),
    {
        match self {
            Claim::Exact(known) => {
                proof {
                    if known.same(value) && known.val() == value.val() {
                        known.told_apart(value);
                    }
                }
                match known.order(value) {
                    Some(side) => Some(side == Side::Equal),
                    None => None,
                }
            },
            Claim::Other(known) => {
                proof {
                    if known.same(value) && known.val() == value.val() {
                        known.told_apart(value);
                    }
                }
                match known.order(value) {
                    Some(side) => Some(side != Side::Equal),
                    None => None,
                }
            },
            Claim::Within(bounds) => bounds.admits(value),
            Claim::Length(_) => None,
        }
    }

    /// One claim ruling a value out, beside another.
    pub open spec fn beside(ruled_out: Known, rest: Claim) -> Option<Claim> {
        if rest.spec_admits(ruled_out) == Some(false) {
            Some(Claim::Other(ruled_out))
        } else {
            None
        }
    }

    /// Everything either claim admits, when it can be described.
    pub open spec fn spec_join(self, other: Claim) -> Option<Claim> {
        if self == other {
            Some(self)
        } else {
            match (self, other) {
                (Claim::Other(ruled_out), rest) => Claim::beside(ruled_out, rest),
                (rest, Claim::Other(ruled_out)) => Claim::beside(ruled_out, rest),
                _ => match (self.spec_bounds(), other.spec_bounds()) {
                    (Some(a), Some(b)) => match a.spec_hull(b) {
                        Some(range) => Some(Claim::Within(range)),
                        None => None,
                    },
                    _ => None,
                },
            }
        }
    }

    /// Everything either claim admits.
    ///
    /// This is what two arms of a branch leave behind where they meet: one
    /// that settles a divisor at one and bounds it below at the other still
    /// proves it nonzero, which is the whole point of reading the arms
    /// separately. `None` is the claim that admits everything, and a pair
    /// with no common description gives it.
    pub fn join(self, other: Claim) -> (r: Option<Claim>)
        requires
            self.wf(),
            other.wf(),
        ensures
            r == self.spec_join(other),
            match r {
                Some(v) => v.wf(),
                None => true,
            },
    {
        if self == other {
            return Some(self);
        }
        let (ruled_out, rest) = match (self, other) {
            (Claim::Other(ruled_out), rest) => (Some(ruled_out), rest),
            (rest, Claim::Other(ruled_out)) => (Some(ruled_out), rest),
            _ => (None, self),
        };
        if let Some(ruled_out) = ruled_out {
            // Ruling one value out still describes the pair, as long as the
            // other claim never admits it.
            return match rest.admits(ruled_out) {
                Some(false) => Some(Claim::Other(ruled_out)),
                _ => None,
            };
        }
        match (self.bounds(), other.bounds()) {
            (Some(a), Some(b)) => match a.hull(b) {
                Some(range) => Some(Claim::Within(range)),
                None => None,
            },
            _ => None,
        }
    }

    /// The claim widened away from the one it replaced.
    pub open spec fn spec_widened(self, from: Claim, marks: Seq<u128>) -> Option<Claim> {
        match (self.spec_bounds(), from.spec_bounds()) {
            (Some(now), Some(was)) => Some(
                Claim::Within(
                    Bounds {
                        lo: if now.lo == was.lo {
                            now.lo
                        } else {
                            Thresholds::below(marks, now.lo, marks.len())
                        },
                        hi: if now.hi == was.hi {
                            now.hi
                        } else {
                            Thresholds::above(marks, now.hi, marks.len())
                        },
                    },
                ),
            ),
            _ => None,
        }
    }

    /// The claim widened away from the one it replaced.
    ///
    /// An end that moved goes straight to the nearest value the body compares
    /// against, or to the end of its type, so a value that a loop walks
    /// outward reaches its resting place in a few steps rather than one
    /// iteration at a time. Only a range widens; any other claim is given up
    /// instead.
    pub fn widened(self, from: Claim, stops: &Thresholds) -> (r: Option<Claim>)
        requires
            self.wf(),
            from.wf(),
        ensures
            r == self.spec_widened(from, stops.marks@),
            match r {
                Some(v) => v.wf(),
                None => true,
            },
    {
        match (self.bounds(), from.bounds()) {
            (Some(now), Some(was)) => {
                let lo = if now.lo == was.lo {
                    now.lo
                } else {
                    stops.next_below(now.lo)
                };
                let hi = if now.hi == was.hi {
                    now.hi
                } else {
                    stops.next_above(now.hi)
                };
                Some(Claim::Within(Bounds { lo, hi }))
            },
            _ => None,
        }
    }

    /// A range with one value taken off it, when it leaves a range.
    pub open spec fn spec_without(range: Bounds, ruled_out: Known) -> Option<Claim> {
        if !ruled_out.same(range.lo) {
            None
        } else if !range.holds(ruled_out) {
            Some(Claim::Within(range))
        } else if range.lo == ruled_out {
            match ruled_out.fitted(ruled_out.val() + 1) {
                Some(next) => match Bounds::spec_new(next, range.hi) {
                    Some(rest) => Some(Claim::Within(rest)),
                    None => None,
                },
                None => None,
            }
        } else if range.hi == ruled_out {
            match ruled_out.fitted(ruled_out.val() - 1) {
                Some(next) => match Bounds::spec_new(range.lo, next) {
                    Some(rest) => Some(Claim::Within(rest)),
                    None => None,
                },
                None => None,
            }
        } else {
            None
        }
    }

    /// A range with one value taken off it, when it leaves a range.
    pub fn without(range: Bounds, ruled_out: Known) -> (r: Option<Claim>)
        requires
            range.wf(),
            ruled_out.wf(),
        ensures
            r == Claim::spec_without(range, ruled_out),
            match r {
                Some(v) => v.wf(),
                None => true,
            },
    {
        match range.admits(ruled_out) {
            None => {
                return None;
            },
            Some(false) => {
                return Some(Claim::Within(range));
            },
            Some(true) => {},
        }
        if range.lo == ruled_out {
            return match ruled_out.successor() {
                Some(next) => match Bounds::new(next, range.hi) {
                    Some(rest) => Some(Claim::Within(rest)),
                    None => None,
                },
                None => None,
            };
        }
        if range.hi == ruled_out {
            return match ruled_out.predecessor() {
                Some(next) => match Bounds::new(range.lo, next) {
                    Some(rest) => Some(Claim::Within(rest)),
                    None => None,
                },
                None => None,
            };
        }
        None
    }

    /// The narrowing, when the claim taught is one.
    pub open spec fn spec_narrowed(self, taught: Claim) -> Option<Claim> {
        match (self, taught) {
            (Claim::Exact(_), _) => None,
            (Claim::Length(_), _) => None,
            (_, Claim::Exact(known)) => if self.spec_admits(known) == Some(true) {
                Some(Claim::Exact(known))
            } else {
                None
            },
            (Claim::Other(ruled_out), Claim::Within(bounds)) => Claim::spec_without(
                bounds,
                ruled_out,
            ),
            (Claim::Within(bounds), Claim::Other(ruled_out)) => Claim::spec_without(
                bounds,
                ruled_out,
            ),
            (Claim::Within(held), Claim::Within(bounds)) => match held.spec_overlap(bounds) {
                Some(both) => Some(Claim::Within(both)),
                None => None,
            },
            _ => None,
        }
    }

    /// The narrowing, when the claim taught is one.
    fn narrowed(self, taught: Claim) -> (r: Option<Claim>)
        requires
            self.wf(),
            taught.wf(),
        ensures
            r == self.spec_narrowed(taught),
            match r {
                Some(v) => v.wf(),
                None => true,
            },
    {
        match (self, taught) {
            // A settled claim cannot be improved on.
            (Claim::Exact(_), _) => None,
            (Claim::Length(_), _) => None,
            (_, Claim::Exact(known)) => match self.admits(known) {
                Some(true) => Some(Claim::Exact(known)),
                _ => None,
            },
            (Claim::Other(ruled_out), Claim::Within(bounds)) => Claim::without(bounds, ruled_out),
            (Claim::Within(bounds), Claim::Other(ruled_out)) => Claim::without(bounds, ruled_out),
            (Claim::Within(held), Claim::Within(bounds)) => match held.overlap(bounds) {
                Some(both) => Some(Claim::Within(both)),
                None => None,
            },
            _ => None,
        }
    }

    /// The claim narrowed by one a branch taught.
    pub open spec fn spec_refined(self, taught: Claim) -> Claim {
        match self.spec_narrowed(taught) {
            Some(narrower) => narrower,
            None => self,
        }
    }

    /// The claim narrowed by one a branch taught.
    ///
    /// Only a narrowing that lies wholly inside the claim already held is
    /// taken, so a second bound on the same local adds to the first instead
    /// of replacing it. A pair with nothing in common would mean the arm
    /// never runs, which this pass does not claim, so what was held stands.
    pub fn refined(self, taught: Claim) -> (r: Claim)
        requires
            self.wf(),
            taught.wf(),
        ensures
            r == self.spec_refined(taught),
            r.wf(),
    {
        match self.narrowed(taught) {
            Some(narrower) => narrower,
            None => self,
        }
    }
}

/// Where two arms of a branch meet, what either admits is still admitted.
pub proof fn joining_is_conservative(a: Claim, b: Claim, k: Known, measure: spec_fn(Local) -> int)
    requires
        a.wf(),
        b.wf(),
        k.wf(),
        a.allows(k, measure) || b.allows(k, measure),
    ensures
        match a.spec_join(b) {
            Some(v) => v.wf() && v.allows(k, measure),
            None => true,
        },
{
    if a != b {
        match (a, b) {
            (Claim::Other(r), rest) => {
                if rest.spec_admits(r) == Some(false) && rest.allows(k, measure) {
                    assert(k.same(r));
                }
            },
            (rest, Claim::Other(r)) => {
                if rest.spec_admits(r) == Some(false) && rest.allows(k, measure) {
                    assert(k.same(r));
                }
            },
            _ => {},
        }
    }
}

/// A claim narrowed by what a branch taught still admits every value that both
/// do.
pub proof fn refining_is_conservative(
    held: Claim,
    taught: Claim,
    k: Known,
    measure: spec_fn(Local) -> int,
)
    requires
        held.wf(),
        taught.wf(),
        k.wf(),
        held.allows(k, measure),
        taught.allows(k, measure),
    ensures
        held.spec_refined(taught).wf(),
        held.spec_refined(taught).allows(k, measure),
{
    match (held, taught) {
        (Claim::Other(r), Claim::Within(b)) => {
            taking_off_is_conservative(b, r, k);
        },
        (Claim::Within(b), Claim::Other(r)) => {
            taking_off_is_conservative(b, r, k);
        },
        _ => {},
    }
}

/// Taking one value off a range leaves every other.
proof fn taking_off_is_conservative(range: Bounds, ruled_out: Known, k: Known)
    requires
        range.wf(),
        ruled_out.wf(),
        k.wf(),
        range.holds(k),
        k.same(ruled_out),
        k != ruled_out,
    ensures
        match Claim::spec_without(range, ruled_out) {
            Some(Claim::Within(rest)) => rest.wf() && rest.holds(k),
            Some(_) => false,
            None => true,
        },
{
    if k.val() == ruled_out.val() {
        k.told_apart(ruled_out);
    }
    k.stands();
    ruled_out.stands();
    if ruled_out.fits(ruled_out.val() + 1) {
        ruled_out.placed(ruled_out.val() + 1);
    }
    if ruled_out.fits(ruled_out.val() - 1) {
        ruled_out.placed(ruled_out.val() - 1);
    }
}

/// A widened claim admits every value the claim did.
pub proof fn widening_is_conservative(
    now: Claim,
    was: Claim,
    marks: Seq<u128>,
    k: Known,
    measure: spec_fn(Local) -> int,
)
    requires
        now.wf(),
        was.wf(),
        k.wf(),
        now.allows(k, measure),
    ensures
        match now.spec_widened(was, marks) {
            Some(v) => v.wf() && v.allows(k, measure),
            None => true,
        },
{
    match (now.spec_bounds(), was.spec_bounds()) {
        (Some(b), Some(_)) => {
            stops_lie_outward(marks, b.lo, marks.len());
            stops_lie_outward(marks, b.hi, marks.len());
        },
        _ => {},
    }
}

/// A widened claim names values of their types.
pub proof fn widening_stays_wf(now: Claim, was: Claim, marks: Seq<u128>)
    requires
        now.wf(),
        was.wf(),
    ensures
        match now.spec_widened(was, marks) {
            Some(v) => v.wf(),
            None => true,
        },
{
    match (now.spec_bounds(), was.spec_bounds()) {
        (Some(b), Some(_)) => {
            stops_lie_outward(marks, b.lo, marks.len());
            stops_lie_outward(marks, b.hi, marks.len());
        },
        _ => {},
    }
}

/// A widening step never moves an end inward, and ends at a value of its type.
pub proof fn stops_lie_outward(marks: Seq<u128>, now: Known, n: nat)
    requires
        now.wf(),
    ensures
        Thresholds::above(marks, now, n).wf(),
        Thresholds::above(marks, now, n).same(now),
        now.val() <= Thresholds::above(marks, now, n).val(),
        Thresholds::below(marks, now, n).wf(),
        Thresholds::below(marks, now, n).same(now),
        Thresholds::below(marks, now, n).val() <= now.val(),
    decreases n,
{
    now.stands();
    now.placed(now.max_val());
    now.placed(now.min_val());
    if n > 0 {
        stops_lie_outward(marks, now, (n - 1) as nat);
    }
}

/// The link from a value to one it was reached from by an addition.
#[derive(Debug, Clone, Copy, PartialEq, Eq, Structural)]
pub struct Over {
    /// The local it was reached from.
    pub of: Local,
    /// What was added.
    pub step: u128,
}

/// Everything known about one local.
///
/// The planes are deliberate. A loop's counter is an exact zero on the way
/// in and merely below the length on the way round, and holding both claims
/// lets the merge keep the ordering while it gives the constant up. The
/// link of sameness is a plane of its own for the same reason: a copy whose
/// value is already known still has to name its source, or a fact the
/// source learns later never reaches the checks that read the copy.
#[derive(Debug, Clone, Copy, PartialEq, Eq, Structural)]
pub struct Fact {
    /// What the value is.
    pub value: Option<Claim>,
    /// How the value is ordered against the lengths of the slices behind
    /// other locals.
    pub order: Ranks,
    /// The local this one was copied from, still unwritten since. The
    /// target never carries a link itself, so chains are one step long.
    pub same: Option<Local>,
    /// How long the slice in play is.
    ///
    /// It is recorded against the local the slice is behind, so a guard
    /// that proves a slice not empty still says so at the next read of its
    /// length, which is a different local. A local holding a length is
    /// handed the claim recorded against that slice when it is read, so
    /// both describe the same quantity.
    pub extent: Option<Bounds>,
    /// A local whose slice is as long as the one in play.
    pub paired: Option<Local>,
    /// The local holding the length that the slice was cut to.
    pub spans: Option<Local>,
    /// The local this one was reached from by an addition.
    pub over: Option<Over>,
    /// Whether the value is an address, and so cannot be zero.
    ///
    /// A place has an address, and a reference is valid only when it holds
    /// one, so a pointer taken of either is never null. That is the claim a
    /// null check reads, and reading it is what clears the check written
    /// under every `NonNull::new`.
    pub address: bool,
    /// The tag the enum at this place carries, which is the value its
    /// discriminant reads as rather than the index of the variant.
    ///
    /// It is what makes a match fold: an option built as `Some` never takes
    /// the arm that panics, and the body holding that arm is then a body
    /// that raises nothing.
    pub tag: Option<u128>,
}

/// What both of two options hold, where they agree.
pub open spec fn shared<T>(a: Option<T>, b: Option<T>) -> Option<T> {
    if a == b {
        a
    } else {
        None
    }
}

impl Fact {
    /// Whether the values named are values of their types.
    pub open spec fn wf(self) -> bool {
        &&& match self.value {
            Some(v) => v.wf(),
            None => true,
        }
        &&& match self.extent {
            Some(b) => b.wf(),
            None => true,
        }
    }

    /// Nothing known.
    pub open spec fn nothing() -> Fact {
        Fact {
            value: None,
            order: Ranks::Empty,
            same: None,
            extent: None,
            paired: None,
            spans: None,
            over: None,
            address: false,
            tag: None,
        }
    }

    /// A fact holding just a value.
    pub open spec fn just(value: Option<Claim>) -> Fact {
        Fact { value, ..Fact::nothing() }
    }

    /// Whether a value can be what the fact is about, where a slice is as long
    /// as what is measured of the local it is behind, and so is the value of a
    /// local that holds a number.
    pub open spec fn allows(self, k: Known, measure: spec_fn(Local) -> int) -> bool {
        &&& match self.value {
            Some(v) => v.allows(k, measure),
            None => true,
        }
        &&& self.order.holds(k.val(), measure)
        &&& match self.same {
            Some(of) => k.val() == measure(of),
            None => true,
        }
        &&& match (self.value, self.extent) {
            (Some(Claim::Length(_)), Some(range)) => range.holds(k),
            _ => true,
        }
        &&& match (self.value, self.paired) {
            (Some(Claim::Length(of)), Some(other)) => measure(of) == measure(other),
            _ => true,
        }
    }

    /// Knowing nothing names no value.
    pub proof fn nothing_is_wf()
        ensures
            Fact::nothing().wf(),
    {
    }

    /// Nothing known.
    pub fn blank() -> (r: Fact)
        ensures
            r == Fact::nothing(),
            r.wf(),
    {
        Fact {
            value: None,
            order: Ranks::none_held(),
            same: None,
            extent: None,
            paired: None,
            spans: None,
            over: None,
            address: false,
            tag: None,
        }
    }

    /// A fact holding just a value.
    pub fn of(value: Claim) -> (r: Fact)
        ensures
            r == Fact::just(Some(value)),
    {
        Fact { value: Some(value), ..Fact::blank() }
    }

    /// Everything both of two facts admit.
    pub open spec fn spec_joined(self, other: Fact) -> Fact {
        Fact {
            value: match (self.value, other.value) {
                (Some(held), Some(arriving)) => held.spec_join(arriving),
                _ => None,
            },
            order: self.order.spec_joined(other.order),
            same: shared(self.same, other.same),
            extent: match (self.extent, other.extent) {
                (Some(held), Some(arriving)) => held.spec_hull(arriving),
                _ => None,
            },
            paired: shared(self.paired, other.paired),
            spans: shared(self.spans, other.spans),
            over: shared(self.over, other.over),
            address: self.address && other.address,
            tag: shared(self.tag, other.tag),
        }
    }

    /// Everything both facts admit.
    ///
    /// The two planes that hold a range are joined, so an arm that settles
    /// a local on one and bounds it on the other still leaves a range
    /// behind. The planes that name a local describe nothing when they name
    /// different ones, so those survive only by agreeing.
    pub fn joined(self, other: Fact) -> (r: Fact)
        requires
            self.wf(),
            other.wf(),
        ensures
            r == self.spec_joined(other),
            r.wf(),
    {
        let value = match (self.value, other.value) {
            (Some(held), Some(arriving)) => held.join(arriving),
            _ => None,
        };
        let extent = match (self.extent, other.extent) {
            (Some(held), Some(arriving)) => held.hull(arriving),
            _ => None,
        };
        Fact {
            value,
            order: self.order.joined(other.order),
            same: if self.same == other.same {
                self.same
            } else {
                None
            },
            extent,
            paired: if self.paired == other.paired {
                self.paired
            } else {
                None
            },
            spans: if self.spans == other.spans {
                self.spans
            } else {
                None
            },
            over: if self.over == other.over {
                self.over
            } else {
                None
            },
            address: self.address && other.address,
            tag: if self.tag == other.tag {
                self.tag
            } else {
                None
            },
        }
    }

    /// The fact widened away from the one it replaced.
    pub open spec fn spec_widened(self, from: Fact, marks: Seq<u128>) -> Fact {
        Fact {
            value: match (self.value, from.value) {
                (Some(now), Some(was)) => now.spec_widened(was, marks),
                _ => None,
            },
            extent: match (self.extent, from.extent) {
                (Some(now), Some(was)) => match Claim::Within(now).spec_widened(
                    Claim::Within(was),
                    marks,
                ) {
                    Some(wider) => wider.spec_bounds(),
                    None => None,
                },
                _ => None,
            },
            ..self
        }
    }

    /// The fact widened away from the one it replaced.
    pub fn widened(self, from: Fact, stops: &Thresholds) -> (r: Fact)
        requires
            self.wf(),
            from.wf(),
        ensures
            r == self.spec_widened(from, stops.marks@),
            r.wf(),
    {
        let value = match (self.value, from.value) {
            (Some(now), Some(was)) => now.widened(was, stops),
            _ => None,
        };
        let extent = match (self.extent, from.extent) {
            (Some(now), Some(was)) => match Claim::Within(now).widened(Claim::Within(was), stops) {
                Some(wider) => wider.bounds(),
                None => None,
            },
            _ => None,
        };
        Fact { value, extent, ..self }
    }
}

/// Where two facts meet, what either allows is still allowed.
pub proof fn meeting_is_conservative(
    a: Fact,
    b: Fact,
    k: Known,
    measure: spec_fn(Local) -> int,
)
    requires
        a.wf(),
        b.wf(),
        k.wf(),
        a.allows(k, measure) || b.allows(k, measure),
    ensures
        a.spec_joined(b).allows(k, measure),
{
    match (a.value, b.value) {
        (Some(x), Some(y)) => {
            joining_is_conservative(x, y, k, measure);
        },
        _ => {},
    }
    match a.spec_joined(b).value {
        Some(Claim::Length(of)) => {
            assert(a.value == Some(Claim::Length(of)) && b.value == Some(Claim::Length(of)));
        },
        _ => {},
    }
}

/// A fact widened away from the one it replaced allows what it allowed.
pub proof fn widening_facts_is_conservative(
    now: Fact,
    was: Fact,
    marks: Seq<u128>,
    k: Known,
    measure: spec_fn(Local) -> int,
)
    requires
        now.wf(),
        was.wf(),
        k.wf(),
        now.allows(k, measure),
    ensures
        now.spec_widened(was, marks).allows(k, measure),
{
    match (now.value, was.value) {
        (Some(a), Some(b)) => {
            widening_is_conservative(a, b, marks, k, measure);
        },
        _ => {},
    }
    match (now.value, now.extent, was.extent) {
        (Some(Claim::Length(_)), Some(a), Some(b)) => {
            widening_is_conservative(Claim::Within(a), Claim::Within(b), marks, k, measure);
        },
        _ => {},
    }
}

/// A fact a comparison teaches, filed by the plane it lives in.
#[derive(Debug, Clone, Copy, PartialEq, Eq, Structural)]
pub enum Taught {
    /// A claim about the value itself.
    Value(Claim),
    /// A claim about its order against a slice length.
    Order(LenRel, Local),
    /// Not the length of the slice behind a local.
    Apart(Local),
    /// As long as the slice behind a local.
    Alike(Local),
}

/// What a comparison measured a local against.
#[derive(Debug, Clone, Copy, PartialEq, Eq, Structural)]
pub enum Against {
    /// A constant value.
    Constant(Known),
    /// The length of the slice behind a local.
    Length(Local),
    /// What a place holds.
    Place(Local),
}

impl Against {
    /// Whether the value named is one of its type.
    pub open spec fn wf(self) -> bool {
        match self {
            Against::Constant(k) => k.wf(),
            _ => true,
        }
    }
}

/// The comparison operator with its operands exchanged.
pub open spec fn spec_mirrored(op: BinOp) -> BinOp {
    match op {
        BinOp::Lt => BinOp::Gt,
        BinOp::Le => BinOp::Ge,
        BinOp::Gt => BinOp::Lt,
        BinOp::Ge => BinOp::Le,
        other => other,
    }
}

/// The comparison operator with its operands exchanged.
///
/// This is also what normalizes a comparison read backwards, constant
/// first.
pub fn mirrored(op: BinOp) -> (r: BinOp)
    ensures
        r == spec_mirrored(op),
{
    match op {
        BinOp::Lt => BinOp::Gt,
        BinOp::Le => BinOp::Ge,
        BinOp::Gt => BinOp::Lt,
        BinOp::Ge => BinOp::Le,
        other => other,
    }
}

/// The comparison operator whose truth is the negation of the given one.
pub open spec fn spec_negated(op: BinOp) -> BinOp {
    match op {
        BinOp::Lt => BinOp::Ge,
        BinOp::Le => BinOp::Gt,
        BinOp::Gt => BinOp::Le,
        BinOp::Ge => BinOp::Lt,
        BinOp::Eq => BinOp::Ne,
        BinOp::Ne => BinOp::Eq,
        other => other,
    }
}

/// The comparison operator whose truth is the negation of the given one.
pub fn negated(op: BinOp) -> (r: BinOp)
    ensures
        r == spec_negated(op),
{
    match op {
        BinOp::Lt => BinOp::Ge,
        BinOp::Le => BinOp::Gt,
        BinOp::Gt => BinOp::Le,
        BinOp::Ge => BinOp::Lt,
        BinOp::Eq => BinOp::Ne,
        BinOp::Ne => BinOp::Eq,
        other => other,
    }
}

/// Whether a comparison of two numbers holds, if the operator is one.
pub open spec fn verdict(op: BinOp, a: int, b: int) -> Option<bool> {
    match op {
        BinOp::Eq => Some(a == b),
        BinOp::Ne => Some(a != b),
        BinOp::Lt => Some(a < b),
        BinOp::Le => Some(a <= b),
        BinOp::Gt => Some(a > b),
        BinOp::Ge => Some(a >= b),
        _ => None,
    }
}

/// A comparison read backwards says the same, and a negated one the opposite.
pub proof fn readings_agree(op: BinOp, a: int, b: int)
    ensures
        verdict(spec_mirrored(op), b, a) == verdict(op, a, b),
        match verdict(op, a, b) {
            Some(t) => verdict(spec_negated(op), a, b) == Some(!t),
            None => true,
        },
{
}

/// The range of values of a type from one end to another, as a claim.
pub open spec fn range_claim(lo: Known, hi: Known) -> Option<Claim> {
    match Bounds::spec_new(lo, hi) {
        Some(range) => Some(Claim::Within(range)),
        None => None,
    }
}

/// The fact a comparison against a constant leaves behind.
pub open spec fn spec_constant_fact(op: BinOp, k: Known) -> Option<Claim> {
    match op {
        BinOp::Eq => Some(Claim::Exact(k)),
        BinOp::Ne => Some(Claim::spec_other_than(k)),
        BinOp::Lt => match k.fitted(k.val() - 1) {
            Some(under) => range_claim(k.at(k.min_val()), under),
            None => None,
        },
        BinOp::Le => range_claim(k.at(k.min_val()), k),
        BinOp::Gt => match k.fitted(k.val() + 1) {
            Some(over) => range_claim(over, k.at(k.max_val())),
            None => None,
        },
        BinOp::Ge => range_claim(k, k.at(k.max_val())),
        _ => None,
    }
}

fn range_of(lo: Known, hi: Known) -> (r: Option<Claim>)
    requires
        lo.wf(),
        hi.wf(),
    ensures
        r == range_claim(lo, hi),
        match r {
            Some(v) => v.wf(),
            None => true,
        },
{
    match Bounds::new(lo, hi) {
        Some(range) => Some(Claim::Within(range)),
        None => None,
    }
}

/// The fact a comparison against a constant leaves behind.
fn constant_fact(op: BinOp, k: Known) -> (r: Option<Claim>)
    requires
        k.wf(),
    ensures
        r == spec_constant_fact(op, k),
        match r {
            Some(v) => v.wf(),
            None => true,
        },
{
    match op {
        BinOp::Eq => Some(Claim::Exact(k)),
        BinOp::Ne => Some(Claim::other_than(k)),
        BinOp::Lt => match k.predecessor() {
            Some(under) => range_of(k.type_min(), under),
            None => None,
        },
        BinOp::Le => range_of(k.type_min(), k),
        BinOp::Gt => match k.successor() {
            Some(over) => range_of(over, k.type_max()),
            None => None,
        },
        BinOp::Ge => range_of(k, k.type_max()),
        _ => None,
    }
}

/// A value of which a comparison with a constant holds is one the fact that it
/// leaves behind admits. A truth value is none or one.
pub proof fn constants_teach_conservatively(
    op: BinOp,
    k: Known,
    x: Known,
    measure: spec_fn(Local) -> int,
)
    requires
        k.wf(),
        x.wf(),
        x.same(k),
        k.ty.form is Bool ==> x.bits <= 1,
        verdict(op, x.val(), k.val()) == Some(true),
    ensures
        match spec_constant_fact(op, k) {
            Some(v) => v.allows(x, measure),
            None => true,
        },
{
    x.stands();
    k.stands();
    k.placed(k.min_val());
    k.placed(k.max_val());
    if x.val() == k.val() {
        x.told_apart(k);
    }
    if k.fits(k.val() - 1) {
        k.placed(k.val() - 1);
    }
    if k.fits(k.val() + 1) {
        k.placed(k.val() + 1);
    }
}

/// The fact a comparison against a slice length leaves behind.
pub open spec fn spec_length_fact(op: BinOp, of: Local) -> Option<Taught> {
    match op {
        BinOp::Lt => Some(Taught::Order(LenRel::Below, of)),
        BinOp::Le => Some(Taught::Order(LenRel::AtMost, of)),
        BinOp::Eq => Some(Taught::Alike(of)),
        BinOp::Ne => Some(Taught::Apart(of)),
        _ => None,
    }
}

/// The fact a comparison against a slice length leaves behind.
///
/// Only the orderings a bounds check can consume are kept, and whether the
/// two are alike. The rest say something, but nothing this pass reads.
fn length_fact(op: BinOp, of: Local) -> (r: Option<Taught>)
    ensures
        r == spec_length_fact(op, of),
{
    match op {
        BinOp::Lt => Some(Taught::Order(LenRel::Below, of)),
        BinOp::Le => Some(Taught::Order(LenRel::AtMost, of)),
        BinOp::Eq => Some(Taught::Alike(of)),
        BinOp::Ne => Some(Taught::Apart(of)),
        _ => None,
    }
}

/// What holding or failing a comparison proves about the measured local.
pub open spec fn spec_fact_of(op: BinOp, against: Against, holds: bool) -> Option<Taught> {
    let op = if holds {
        op
    } else {
        spec_negated(op)
    };
    match against {
        Against::Constant(k) => match spec_constant_fact(op, k) {
            Some(claim) => Some(Taught::Value(claim)),
            None => None,
        },
        Against::Length(of) => spec_length_fact(op, of),
        Against::Place(of) => match op {
            BinOp::Lt => Some(Taught::Order(LenRel::Below, of)),
            BinOp::Le => Some(Taught::Order(LenRel::AtMost, of)),
            _ => None,
        },
    }
}

/// What holding or failing a comparison proves about the measured local.
pub fn fact_of(op: BinOp, against: Against, holds: bool) -> (r: Option<Taught>)
    requires
        against.wf(),
    ensures
        r == spec_fact_of(op, against, holds),
        match r {
            Some(Taught::Value(claim)) => claim.wf(),
            _ => true,
        },
{
    let op = if holds {
        op
    } else {
        negated(op)
    };
    match against {
        Against::Constant(k) => match constant_fact(op, k) {
            Some(claim) => Some(Taught::Value(claim)),
            None => None,
        },
        Against::Length(of) => length_fact(op, of),
        Against::Place(of) => match op {
            BinOp::Lt => length_fact(op, of),
            BinOp::Le => length_fact(op, of),
            _ => None,
        },
    }
}

/// How a value compares with the one it was reached from by adding a step.
pub open spec fn spec_stepped(op: BinOp, step: u128) -> Option<bool> {
    verdict(op, 0, step as int)
}

/// How a value compares with one reached from it by adding a step, which did
/// not leave the type.
pub fn stepped(op: BinOp, step: u128) -> (r: Option<bool>)
    ensures
        r == spec_stepped(op, step),
{
    match op {
        BinOp::Eq => Some(step == 0),
        BinOp::Ne => Some(step != 0),
        BinOp::Lt => Some(step > 0),
        BinOp::Le => Some(true),
        BinOp::Gt => Some(false),
        BinOp::Ge => Some(step == 0),
        _ => None,
    }
}

/// What one ordering of an index proves about a comparison with the length it
/// was measured by.
pub open spec fn rank_verdict(op: BinOp, rel: LenRel) -> Option<bool> {
    match (rel, op) {
        (LenRel::Below, BinOp::Lt) => Some(true),
        (LenRel::Below, BinOp::Le) => Some(true),
        (LenRel::AtMost, BinOp::Le) => Some(true),
        (LenRel::Below, BinOp::Ge) => Some(false),
        (LenRel::Below, BinOp::Gt) => Some(false),
        (LenRel::AtMost, BinOp::Gt) => Some(false),
        _ => None,
    }
}

/// What an index measured against a length proves about a comparison, with
/// the measured value on the left and the length on the right.
pub open spec fn spec_measured_against(op: BinOp, left: Fact, right: Fact) -> Option<bool> {
    let by_length = match right.value {
        Some(Claim::Length(of)) => match left.order.spec_against(of) {
            Some(rel) => rank_verdict(op, rel),
            None => None,
        },
        _ => None,
    };
    if by_length is Some {
        by_length
    } else {
        match right.same {
            Some(of) => match left.order.spec_against(of) {
                Some(rel) => rank_verdict(op, rel),
                None => None,
            },
            None => None,
        }
    }
}

fn by_rank(op: BinOp, left: Fact, of: Local) -> (r: Option<bool>)
    ensures
        r == (match left.order.spec_against(of) {
            Some(rel) => rank_verdict(op, rel),
            None => None,
        }),
{
    match left.order.against(of) {
        Some(rel) => match (rel, op) {
            (LenRel::Below, BinOp::Lt) => Some(true),
            (LenRel::Below, BinOp::Le) => Some(true),
            (LenRel::AtMost, BinOp::Le) => Some(true),
            (LenRel::Below, BinOp::Ge) => Some(false),
            (LenRel::Below, BinOp::Gt) => Some(false),
            (LenRel::AtMost, BinOp::Gt) => Some(false),
            _ => None,
        },
        None => None,
    }
}

/// What an index measured against a length proves about a comparison.
///
/// The measured value is on the left and the length it was measured by on
/// the right.
fn measured_against(op: BinOp, left: Fact, right: Fact) -> (r: Option<bool>)
    ensures
        r == spec_measured_against(op, left, right),
{
    if let Some(Claim::Length(of)) = right.value {
        let settled = by_rank(op, left, of);
        if settled.is_some() {
            return settled;
        }
    }
    match right.same {
        Some(of) => by_rank(op, left, of),
        None => None,
    }
}

/// Whether two facts are lengths known to be equal.
pub open spec fn alike(left: Fact, right: Fact) -> bool {
    match (left.value, right.value) {
        (Some(Claim::Length(a)), Some(Claim::Length(b))) => a == b || left.paired == Some(b)
            || right.paired == Some(a),
        _ => false,
    }
}

/// What a fact claims about its value, reading a length as the range that
/// length was found to lie in.
pub open spec fn spec_sized(fact: Fact) -> Option<Claim> {
    match (fact.value, fact.extent) {
        (Some(Claim::Length(_)), Some(bounds)) => Some(Claim::Within(bounds)),
        (value, _) => value,
    }
}

/// What a fact claims about its value, reading a length as the range that
/// length was found to lie in.
///
/// This is what a guard on emptiness leaves behind: the check that a slice
/// read is in range compares a constant against the length, and past
/// `if v.is_empty()` the length is known to be at least one.
fn sized(fact: Fact) -> (r: Option<Claim>)
    requires
        fact.wf(),
    ensures
        r == spec_sized(fact),
        match r {
            Some(v) => v.wf(),
            None => true,
        },
{
    match (fact.value, fact.extent) {
        (Some(Claim::Length(_)), Some(bounds)) => Some(Claim::Within(bounds)),
        (value, _) => value,
    }
}

/// The claim read in the sharpest form it has.
pub open spec fn spec_opened(value: Claim) -> Claim {
    match value {
        Claim::Other(ruled_out) => match Bounds::spec_new(
            ruled_out.at(ruled_out.min_val()),
            ruled_out.at(ruled_out.max_val()),
        ) {
            Some(whole) => match Claim::spec_without(whole, ruled_out) {
                Some(rest) => rest,
                None => value,
            },
            None => value,
        },
        Claim::Within(bounds) => if bounds.lo == bounds.hi {
            Claim::Exact(bounds.lo)
        } else {
            value
        },
        _ => value,
    }
}

/// The claim read in the sharpest form it has.
///
/// Ruling out the end of a type leaves everything but that end, which is
/// what makes a value known apart from zero compare above it, and a range
/// with one value in it is that value.
fn opened(value: Claim) -> (r: Claim)
    requires
        value.wf(),
    ensures
        r == spec_opened(value),
        r.wf(),
{
    match value {
        Claim::Other(ruled_out) => match Bounds::new(ruled_out.type_min(), ruled_out.type_max()) {
            Some(whole) => match Claim::without(whole, ruled_out) {
                Some(rest) => rest,
                None => value,
            },
            None => value,
        },
        Claim::Within(bounds) => if bounds.lo == bounds.hi {
            Claim::Exact(bounds.lo)
        } else {
            value
        },
        _ => value,
    }
}

/// What a fact settles a value to.
pub open spec fn spec_pinned(fact: Fact) -> Option<Known> {
    match spec_sized(fact) {
        Some(value) => spec_opened(value).spec_exact(),
        None => None,
    }
}

/// What a fact settles a value to.
///
/// A length is read through the range that length was found to lie in, so
/// a slice made of a fixed size array answers a check on its length the
/// way a constant would.
pub fn pinned(fact: Fact) -> (r: Option<Known>)
    requires
        fact.wf(),
    ensures
        r == spec_pinned(fact),
        match r {
            Some(k) => k.wf(),
            None => true,
        },
{
    match sized(fact) {
        Some(value) => opened(value).exact(),
        None => None,
    }
}

/// A comparison between two ranges, where they settle it.
///
/// Equality is settled only by ranges that do not meet. Ranges that overlap
/// leave it open, because a range standing for a whole span says nothing
/// about which value inside it is held.
pub open spec fn spec_spans_compare(op: BinOp, a: Bounds, b: Bounds) -> Option<bool> {
    if !a.lo.same(b.lo) {
        None
    } else {
        match op {
            BinOp::Lt => if a.hi.val() < b.lo.val() {
                Some(true)
            } else if a.lo.val() >= b.hi.val() {
                Some(false)
            } else {
                None
            },
            BinOp::Le => if a.hi.val() <= b.lo.val() {
                Some(true)
            } else if a.lo.val() > b.hi.val() {
                Some(false)
            } else {
                None
            },
            BinOp::Gt => if b.hi.val() < a.lo.val() {
                Some(true)
            } else if b.lo.val() >= a.hi.val() {
                Some(false)
            } else {
                None
            },
            BinOp::Ge => if b.hi.val() <= a.lo.val() {
                Some(true)
            } else if b.lo.val() > a.hi.val() {
                Some(false)
            } else {
                None
            },
            BinOp::Eq => if a.hi.val() < b.lo.val() || b.hi.val() < a.lo.val() {
                Some(false)
            } else {
                None
            },
            BinOp::Ne => if a.hi.val() < b.lo.val() || b.hi.val() < a.lo.val() {
                Some(true)
            } else {
                None
            },
            _ => None,
        }
    }
}

/// Evaluates `<` or `<=` between two ranges.
fn below(strict: bool, a: Bounds, b: Bounds) -> (r: Option<bool>)
    requires
        a.wf(),
        b.wf(),
    ensures
        r == spec_spans_compare(
            if strict {
                BinOp::Lt
            } else {
                BinOp::Le
            },
            a,
            b,
        ),
{
    match (a.hi.order(b.lo), a.lo.order(b.hi)) {
        (Some(near), Some(far)) => {
            let yes = match near {
                Side::Less => true,
                Side::Equal => !strict,
                Side::Greater => false,
            };
            let no = match far {
                Side::Less => false,
                Side::Equal => strict,
                Side::Greater => true,
            };
            if yes {
                Some(true)
            } else if no {
                Some(false)
            } else {
                None
            }
        },
        _ => None,
    }
}

/// Evaluates a comparison between two ranges.
///
/// Equality is settled only by ranges that do not meet. Ranges that overlap
/// leave it open, because a range standing for a whole span says nothing
/// about which value inside it is held; the caller refines that where it
/// knows the range holds one value.
pub fn spans_compare(op: BinOp, a: Bounds, b: Bounds) -> (r: Option<bool>)
    requires
        a.wf(),
        b.wf(),
    ensures
        r == spec_spans_compare(op, a, b),
{
    match op {
        BinOp::Lt => below(true, a, b),
        BinOp::Le => below(false, a, b),
        BinOp::Gt => below(true, b, a),
        BinOp::Ge => below(false, b, a),
        BinOp::Eq | BinOp::Ne => match (a.hi.order(b.lo), b.hi.order(a.lo)) {
            (Some(x), Some(y)) => if x == Side::Less || y == Side::Less {
                Some(op == BinOp::Ne)
            } else {
                None
            },
            _ => None,
        },
        _ => None,
    }
}

/// A comparison inside a range against one settled value.
pub open spec fn spec_range_compare(op: BinOp, range: Bounds, k: Known) -> Option<bool> {
    let settled = spec_spans_compare(op, range, Bounds::single(k));
    if settled is Some {
        settled
    } else if range.lo == range.hi && range.lo == k && (op is Eq || op is Ne) {
        Some(op is Eq)
    } else {
        None
    }
}

/// Evaluates a comparison inside a range against one settled end.
fn range_compare(op: BinOp, range: Bounds, k: Known) -> (r: Option<bool>)
    requires
        range.wf(),
        k.wf(),
    ensures
        r == spec_range_compare(op, range, k),
{
    let settled = spans_compare(op, range, Bounds { lo: k, hi: k });
    if settled.is_some() {
        return settled;
    }
    // The range meets the value, so equality is only settled when the range
    // holds nothing else.
    let single = range.lo == range.hi && range.lo == k;
    if single && (op == BinOp::Eq || op == BinOp::Ne) {
        Some(op == BinOp::Eq)
    } else {
        None
    }
}

/// A comparison over the value plane alone.
pub open spec fn spec_values_compare(op: BinOp, left: Claim, right: Claim) -> Option<bool> {
    match (spec_opened(left), spec_opened(right)) {
        (Claim::Exact(a), Claim::Exact(b)) => spec_range_compare(op, Bounds::single(a), b),
        (Claim::Exact(known), Claim::Other(ruled_out)) => if known == ruled_out && (op is Eq
            || op is Ne) {
            Some(op is Ne)
        } else {
            None
        },
        (Claim::Other(ruled_out), Claim::Exact(known)) => if known == ruled_out && (op is Eq
            || op is Ne) {
            Some(op is Ne)
        } else {
            None
        },
        (Claim::Within(range), Claim::Exact(k)) => spec_range_compare(op, range, k),
        (Claim::Exact(k), Claim::Within(range)) => spec_range_compare(
            spec_mirrored(op),
            range,
            k,
        ),
        (Claim::Within(a), Claim::Within(b)) => spec_spans_compare(op, a, b),
        _ => None,
    }
}

/// Evaluates a comparison over the value plane alone.
fn values_compare(op: BinOp, left: Claim, right: Claim) -> (r: Option<bool>)
    requires
        left.wf(),
        right.wf(),
    ensures
        r == spec_values_compare(op, left, right),
{
    match (opened(left), opened(right)) {
        (Claim::Exact(a), Claim::Exact(b)) => range_compare(op, Bounds { lo: a, hi: a }, b),
        // One side is known to differ from exactly the value the other side
        // holds, which answers an equality and nothing else.
        (Claim::Exact(known), Claim::Other(ruled_out)) => if known == ruled_out && (op == BinOp::Eq
            || op == BinOp::Ne) {
            Some(op == BinOp::Ne)
        } else {
            None
        },
        (Claim::Other(ruled_out), Claim::Exact(known)) => if known == ruled_out && (op == BinOp::Eq
            || op == BinOp::Ne) {
            Some(op == BinOp::Ne)
        } else {
            None
        },
        (Claim::Within(range), Claim::Exact(k)) => range_compare(op, range, k),
        (Claim::Exact(k), Claim::Within(range)) => range_compare(mirrored(op), range, k),
        (Claim::Within(a), Claim::Within(b)) => spans_compare(op, a, b),
        _ => None,
    }
}

/// A comparison whose operands are only partly known.
pub open spec fn spec_compare(op: BinOp, left: Fact, right: Fact) -> Option<bool> {
    if spec_measured_against(op, left, right) is Some {
        spec_measured_against(op, left, right)
    } else if spec_measured_against(spec_mirrored(op), right, left) is Some {
        spec_measured_against(spec_mirrored(op), right, left)
    } else if alike(left, right) && verdict(op, 0, 0) is Some {
        verdict(op, 0, 0)
    } else {
        match (spec_sized(left), spec_sized(right)) {
            (Some(a), Some(b)) => spec_values_compare(op, a, b),
            _ => None,
        }
    }
}

/// Evaluates a comparison whose operands are only partly known.
///
/// `None` means the answer depends on the run. Everything here follows from
/// the claims alone, so an answer is only given when every execution agrees.
pub fn compare(op: BinOp, left: Fact, right: Fact) -> (r: Option<bool>)
    requires
        left.wf(),
        right.wf(),
    ensures
        r == spec_compare(op, left, right),
{
    // An index the branch proved in range, compared against the length it
    // was measured by, read from each end in turn.
    let near = measured_against(op, left, right);
    if near.is_some() {
        return near;
    }
    let far = measured_against(mirrored(op), right, left);
    if far.is_some() {
        return far;
    }
    let equal = match (left.value, right.value) {
        (Some(Claim::Length(a)), Some(Claim::Length(b))) => a == b || left.paired == Some(b)
            || right.paired == Some(a),
        _ => false,
    };
    if equal {
        match op {
            BinOp::Eq | BinOp::Le | BinOp::Ge => {
                return Some(true);
            },
            BinOp::Ne | BinOp::Lt | BinOp::Gt => {
                return Some(false);
            },
            _ => {},
        }
    }
    match (sized(left), sized(right)) {
        (Some(a), Some(b)) => values_compare(op, a, b),
        _ => None,
    }
}

/// A claim read in its sharpest form admits the same values.
proof fn opening_is_conservative(value: Claim, k: Known, measure: spec_fn(Local) -> int)
    requires
        value.wf(),
        k.wf(),
        value.allows(k, measure),
    ensures
        spec_opened(value).wf(),
        spec_opened(value).allows(k, measure),
{
    match value {
        Claim::Other(ruled_out) => {
            ruled_out.stands();
            ruled_out.placed(ruled_out.min_val());
            ruled_out.placed(ruled_out.max_val());
            k.stands();
            let whole = Bounds {
                lo: ruled_out.at(ruled_out.min_val()),
                hi: ruled_out.at(ruled_out.max_val()),
            };
            taking_off_is_conservative(whole, ruled_out, k);
        },
        Claim::Within(bounds) => {
            if bounds.lo == bounds.hi {
                k.told_apart(bounds.lo);
            }
        },
        _ => {},
    }
}

/// What a comparison of two ranges is settled to holds of every pair of values
/// in them.
pub proof fn ranges_compare_truly(op: BinOp, a: Bounds, b: Bounds, x: Known, y: Known)
    requires
        a.wf(),
        b.wf(),
        x.wf(),
        y.wf(),
        a.holds(x),
        b.holds(y),
        spec_spans_compare(op, a, b) is Some,
    ensures
        verdict(op, x.val(), y.val()) == spec_spans_compare(op, a, b),
{
}

proof fn claims_compare_truly(
    op: BinOp,
    left: Claim,
    right: Claim,
    x: Known,
    y: Known,
    measure: spec_fn(Local) -> int,
)
    requires
        left.wf(),
        right.wf(),
        x.wf(),
        y.wf(),
        left.allows(x, measure),
        right.allows(y, measure),
        spec_values_compare(op, left, right) is Some,
    ensures
        verdict(op, x.val(), y.val()) == spec_values_compare(op, left, right),
{
    opening_is_conservative(left, x, measure);
    opening_is_conservative(right, y, measure);
    readings_agree(op, x.val(), y.val());
    match (spec_opened(left), spec_opened(right)) {
        (Claim::Exact(a), Claim::Exact(b)) => {
            if spec_spans_compare(op, Bounds::single(a), Bounds::single(b)) is Some {
                ranges_compare_truly(op, Bounds::single(a), Bounds::single(b), x, y);
            }
        },
        (Claim::Exact(known), Claim::Other(ruled_out)) => {
            if x.val() == y.val() && x.same(y) {
                x.told_apart(y);
            }
        },
        (Claim::Other(ruled_out), Claim::Exact(known)) => {
            if x.val() == y.val() && x.same(y) {
                x.told_apart(y);
            }
        },
        (Claim::Within(range), Claim::Exact(k)) => {
            if spec_spans_compare(op, range, Bounds::single(k)) is Some {
                ranges_compare_truly(op, range, Bounds::single(k), x, y);
            }
        },
        (Claim::Exact(k), Claim::Within(range)) => {
            let m = spec_mirrored(op);
            if spec_spans_compare(m, range, Bounds::single(k)) is Some {
                ranges_compare_truly(m, range, Bounds::single(k), y, x);
            }
        },
        (Claim::Within(a), Claim::Within(b)) => {
            ranges_compare_truly(op, a, b, x, y);
        },
        _ => {},
    }
}

/// What a comparison is settled to holds of every pair of values that the
/// facts allow, however long the slices they speak of are.
pub proof fn comparing_is_conservative(
    op: BinOp,
    left: Fact,
    right: Fact,
    x: Known,
    y: Known,
    measure: spec_fn(Local) -> int,
)
    requires
        left.wf(),
        right.wf(),
        x.wf(),
        y.wf(),
        left.allows(x, measure),
        right.allows(y, measure),
        spec_compare(op, left, right) is Some,
    ensures
        verdict(op, x.val(), y.val()) == spec_compare(op, left, right),
{
    readings_agree(op, x.val(), y.val());
    if spec_measured_against(op, left, right) is Some {
        measured_truly(op, left, right, x, y, measure);
    } else if spec_measured_against(spec_mirrored(op), right, left) is Some {
        measured_truly(spec_mirrored(op), right, left, y, x, measure);
    } else if alike(left, right) && verdict(op, 0, 0) is Some {
    } else {
        let a = spec_sized(left)->Some_0;
        let b = spec_sized(right)->Some_0;
        claims_compare_truly(op, a, b, x, y, measure);
    }
}

proof fn measured_truly(
    op: BinOp,
    left: Fact,
    right: Fact,
    x: Known,
    y: Known,
    measure: spec_fn(Local) -> int,
)
    requires
        left.allows(x, measure),
        right.allows(y, measure),
        spec_measured_against(op, left, right) is Some,
    ensures
        verdict(op, x.val(), y.val()) == spec_measured_against(op, left, right),
{
}

/// What a fact settles a value to is the only value it allows.
pub proof fn pinning_is_conservative(fact: Fact, k: Known, measure: spec_fn(Local) -> int)
    requires
        fact.wf(),
        k.wf(),
        fact.allows(k, measure),
        spec_pinned(fact) is Some,
    ensures
        spec_pinned(fact) == Some(k),
{
    opening_is_conservative(spec_sized(fact)->Some_0, k, measure);
}

} // verus!
