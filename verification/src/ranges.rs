//! What the operators do to ranges.
//!
//! Arithmetic is followed only where every end of the result lands inside its
//! type. Past that the machine wraps and the arithmetic does not, and a claim
//! drawn from the wrong one drops a panic that is real.

use vstd::prelude::*;

use crate::value;
use crate::value::{truncate, BinOp, Bounds, Claim, Known};

verus! {

/// A range as a claim.
pub open spec fn within(bounds: Option<Bounds>) -> Option<Claim> {
    match bounds {
        Some(b) => Some(Claim::Within(b)),
        None => None,
    }
}

/// A range as a claim.
pub fn claimed(bounds: Option<Bounds>) -> (r: Option<Claim>)
    requires
        match bounds {
            Some(b) => b.wf(),
            None => true,
        },
    ensures
        r == within(bounds),
        match r {
            Some(v) => v.wf(),
            None => true,
        },
{
    match bounds {
        Some(b) => Some(Claim::Within(b)),
        None => None,
    }
}

/// The range of two ends, where there are two.
pub open spec fn between(lo: Option<Known>, hi: Option<Known>) -> Option<Claim> {
    match (lo, hi) {
        (Some(lo), Some(hi)) => within(Bounds::spec_new(lo, hi)),
        _ => None,
    }
}

fn ends(lo: Option<Known>, hi: Option<Known>) -> (r: Option<Claim>)
    requires
        match lo {
            Some(k) => k.wf(),
            None => true,
        },
        match hi {
            Some(k) => k.wf(),
            None => true,
        },
    ensures
        r == between(lo, hi),
        match r {
            Some(v) => v.wf(),
            None => true,
        },
{
    match (lo, hi) {
        (Some(lo), Some(hi)) => claimed(Bounds::new(lo, hi)),
        _ => None,
    }
}

/// The smallest range holding two values, where there are two.
pub open spec fn over_two(a: Option<Known>, b: Option<Known>) -> Option<Claim> {
    match (a, b) {
        (Some(a), Some(b)) => within(Bounds::cover(seq![a, b], 2)),
        _ => None,
    }
}

/// The smallest range holding four values, where there are four.
pub open spec fn over_four(
    a: Option<Known>,
    b: Option<Known>,
    c: Option<Known>,
    d: Option<Known>,
) -> Option<Claim> {
    match (a, b, c, d) {
        (Some(a), Some(b), Some(c), Some(d)) => within(Bounds::cover(seq![a, b, c, d], 4)),
        _ => None,
    }
}

/// The range an arithmetic operator leaves behind.
///
/// With a sign in play the extreme of a product can come from any pairing of
/// ends, so every corner has to land inside the type before any of them
/// describes the result.
pub open spec fn spec_spanned(op: BinOp, left: Bounds, right: Bounds) -> Option<Claim> {
    match op {
        BinOp::Add => over_two(
            left.lo.spec_arith(op, right.lo),
            left.hi.spec_arith(op, right.hi),
        ),
        BinOp::Sub => over_two(
            left.lo.spec_arith(op, right.hi),
            left.hi.spec_arith(op, right.lo),
        ),
        BinOp::Mul => over_four(
            left.lo.spec_arith(op, right.lo),
            left.lo.spec_arith(op, right.hi),
            left.hi.spec_arith(op, right.lo),
            left.hi.spec_arith(op, right.hi),
        ),
        _ => None,
    }
}

fn two(a: Option<Known>, b: Option<Known>) -> (r: Option<Claim>)
    requires
        match a {
            Some(k) => k.wf(),
            None => true,
        },
        match b {
            Some(k) => k.wf(),
            None => true,
        },
    ensures
        r == over_two(a, b),
        match r {
            Some(v) => v.wf(),
            None => true,
        },
{
    match (a, b) {
        (Some(x), Some(y)) => {
            let corners = vec![x, y];
            assert(corners@ =~= seq![x, y]);
            claimed(Bounds::covering(corners.as_slice()))
        },
        _ => None,
    }
}

/// The range an arithmetic operator leaves behind.
///
/// Each end is worked out as arithmetic rather than as the machine does
/// it, and an end that would leave its type abandons the claim, so a
/// result that wraps is never described by a range that cannot hold it.
pub fn spanned(op: BinOp, left: Bounds, right: Bounds) -> (r: Option<Claim>)
    requires
        left.wf(),
        right.wf(),
    ensures
        r == spec_spanned(op, left, right),
        match r {
            Some(v) => v.wf(),
            None => true,
        },
{
    match op {
        BinOp::Add => two(left.lo.arith(op, right.lo), left.hi.arith(op, right.hi)),
        BinOp::Sub => two(left.lo.arith(op, right.hi), left.hi.arith(op, right.lo)),
        BinOp::Mul => match (
            left.lo.arith(op, right.lo),
            left.lo.arith(op, right.hi),
            left.hi.arith(op, right.lo),
            left.hi.arith(op, right.hi),
        ) {
            (Some(a), Some(b), Some(c), Some(d)) => {
                let corners = vec![a, b, c, d];
                assert(corners@ =~= seq![a, b, c, d]);
                claimed(Bounds::covering(corners.as_slice()))
            },
            _ => None,
        },
        _ => None,
    }
}

/// The range a division or a remainder leaves behind.
pub open spec fn spec_split(op: BinOp, left: Bounds, right: Bounds) -> Option<Claim> {
    if left.lo.signed() || right.lo.signed() || right.lo.bits == 0 {
        None
    } else {
        match op {
            BinOp::Div => between(
                left.lo.spec_quotient(right.hi),
                left.hi.spec_quotient(right.lo),
            ),
            BinOp::Rem => match right.hi.fitted(right.hi.val() - 1) {
                Some(under) => between(
                    Some(Known { bits: 0, ..left.lo }),
                    left.hi.spec_lesser(under),
                ),
                None => None,
            },
            _ => None,
        }
    }
}

/// The range a division or a remainder leaves behind.
///
/// A remainder lies below its divisor and never above the value it was
/// taken of, and a quotient moves with the value and against the
/// divisor. Both are read as unsigned only: a signed remainder carries
/// the sign of its left operand, and a signed division has a corner the
/// type cannot hold. The divisor is above zero wherever this runs,
/// since the check the compiler writes in front of it has passed to get
/// here.
pub fn split(op: BinOp, left: Bounds, right: Bounds) -> (r: Option<Claim>)
    requires
        left.wf(),
        right.wf(),
    ensures
        r == spec_split(op, left, right),
        match r {
            Some(v) => v.wf(),
            None => true,
        },
{
    if left.lo.is_signed() || right.lo.is_signed() || right.lo.bits == 0 {
        return None;
    }
    match op {
        BinOp::Div => ends(left.lo.quotient(right.hi), left.hi.quotient(right.lo)),
        BinOp::Rem => match right.hi.predecessor() {
            Some(under) => ends(Some(left.lo.zero()), left.hi.lesser(under)),
            None => None,
        },
        _ => None,
    }
}

/// The most an `and` can leave: what a side that is never negative holds at
/// most, the lesser where both are.
pub open spec fn and_top(left: Bounds, right: Bounds) -> Option<Known> {
    if left.lo.val() >= 0 && right.lo.val() >= 0 {
        right.hi.spec_lesser(left.hi)
    } else if left.lo.val() >= 0 {
        Some(left.hi)
    } else if right.lo.val() >= 0 {
        Some(right.hi)
    } else {
        None
    }
}

/// The range a bitwise operator leaves behind.
pub open spec fn spec_bitwise(op: BinOp, left: Bounds, right: Bounds) -> Option<Claim> {
    if op is BitAnd {
        between(Some(Known { bits: 0, ..left.lo }), and_top(left, right))
    } else if left.lo.val() < 0 || right.lo.val() < 0 {
        None
    } else {
        let hi = match left.hi.spec_greater(right.hi) {
            Some(top) => top.spec_saturated(),
            None => None,
        };
        let lo = if op is BitOr {
            left.lo.spec_greater(right.lo)
        } else {
            Some(Known { bits: 0, ..left.lo })
        };
        between(lo, hi)
    }
}

/// The range a bitwise operator leaves behind.
///
/// An `and` keeps only the bits an operand already carried, so a side
/// that is never negative bounds the result on its own. An `or` and an
/// `xor` reach no higher than the topmost bit either side carries, and
/// an `or` is never below the larger of the two, which is what keeps
/// `d | 1` away from zero.
pub fn bitwise(op: BinOp, left: Bounds, right: Bounds) -> (r: Option<Claim>)
    requires
        left.wf(),
        right.wf(),
    ensures
        r == spec_bitwise(op, left, right),
        match r {
            Some(v) => v.wf(),
            None => true,
        },
{
    if op == BinOp::BitAnd {
        let hi = if left.lo.nonnegative() && right.lo.nonnegative() {
            right.hi.lesser(left.hi)
        } else if left.lo.nonnegative() {
            Some(left.hi)
        } else if right.lo.nonnegative() {
            Some(right.hi)
        } else {
            None
        };
        return ends(Some(left.lo.zero()), hi);
    }
    if !left.lo.nonnegative() || !right.lo.nonnegative() {
        return None;
    }
    let hi = match left.hi.greater(right.hi) {
        Some(top) => top.saturated(),
        None => None,
    };
    let lo = if op == BinOp::BitOr {
        left.lo.greater(right.lo)
    } else {
        Some(left.lo.zero())
    };
    ends(lo, hi)
}

/// The range a shift by a settled amount leaves behind.
pub open spec fn spec_moved(op: BinOp, span: Bounds, amount: Option<Known>) -> Option<Claim> {
    match amount {
        Some(k) => if k.val() < 0 || k.bits > u32::MAX {
            None
        } else {
            between(
                span.lo.spec_shifted(op, k.bits as u32),
                span.hi.spec_shifted(op, k.bits as u32),
            )
        },
        None => None,
    }
}

/// The range a shift by a settled amount leaves behind.
///
/// The shift moves both ends of the range the same way, so what was an
/// end of the value is an end of the result. Nothing is claimed unless
/// the amount is settled: a shift the walk cannot read is a shift by
/// anything.
pub fn moved(op: BinOp, span: Bounds, amount: Option<Known>) -> (r: Option<Claim>)
    requires
        span.wf(),
        match amount {
            Some(k) => k.wf(),
            None => true,
        },
    ensures
        r == spec_moved(op, span, amount),
        match r {
            Some(v) => v.wf(),
            None => true,
        },
{
    match amount {
        Some(k) => if !k.nonnegative() || k.bits > u32::MAX as u128 {
            None
        } else {
            ends(span.lo.shifted(op, k.bits as u32), span.hi.shifted(op, k.bits as u32))
        },
        None => None,
    }
}

/// What a bitwise operator makes of two numbers.
pub open spec fn bits_of(op: BinOp, a: u128, b: u128) -> Option<u128> {
    match op {
        BinOp::BitAnd => Some(a & b),
        BinOp::BitOr => Some(a | b),
        BinOp::BitXor => Some(a ^ b),
        _ => None,
    }
}

/// An operator applied to two settled values.
pub open spec fn spec_settled(op: BinOp, left: Known, right: Known) -> Option<Known> {
    match bits_of(op, left.bits, right.bits) {
        Some(bits) => if left.same(right) {
            Some(
                Known {
                    bits: value::low_bits(bits as int, left.width as nat) as u128,
                    ..left
                },
            )
        } else {
            None
        },
        None => None,
    }
}

/// Applies an operator to two settled values.
pub fn settled(op: BinOp, left: Known, right: Known) -> (r: Option<Known>)
    requires
        left.wf(),
        right.wf(),
    ensures
        r == spec_settled(op, left, right),
        match r {
            Some(k) => k.wf(),
            None => true,
        },
{
    if left.ty != right.ty || left.width != right.width {
        return None;
    }
    let bits: u128 = match op {
        BinOp::BitAnd => left.bits & right.bits,
        BinOp::BitOr => left.bits | right.bits,
        BinOp::BitXor => left.bits ^ right.bits,
        _ => {
            return None;
        },
    };
    Some(Known { bits: truncate(bits, left.width), ..left })
}

/// A value read at another integer type.
pub open spec fn spec_converted(value: Known, seed: Known) -> Known {
    Known { bits: value::low_bits(value.val(), seed.width as nat) as u128, ..seed }
}

/// Adding what a wide word holds does not change the low bits of a number.
proof fn low_bits_wrap(v: int, width: nat)
    requires
        1 <= width <= 128,
    ensures
        value::low_bits(v + value::span(128), width) == value::low_bits(v, width),
{
    let w = value::span(width) as int;
    value::span_adds(width, (128 - width) as nat);
    let m = value::span((128 - width) as nat) as int;
    assert(value::span(128) == w * m);
    vstd::arithmetic::div_mod::lemma_mod_multiples_vanish(m, v, w);
    assert(w * m + v == v + value::span(128));
}

/// Reads a value at another integer type.
///
/// Narrowing keeps the low bits and widening copies the sign of the
/// source, which is what the machine does.
pub fn converted(value: Known, seed: Known) -> (r: Known)
    requires
        value.wf(),
        seed.wf(),
    ensures
        r == spec_converted(value, seed),
        r.wf(),
{
    proof {
        value.stands();
        value::ones_fit(128);
        low_bits_wrap(value.val(), seed.width as nat);
    }
    let extended: u128 = if value.is_signed() {
        let held: i128 = value.as_signed();
        if held >= 0 {
            held as u128
        } else {
            u128::MAX - ((-(held + 1)) as u128)
        }
    } else {
        value.bits
    };
    Known { bits: truncate(extended, seed.width), ..seed }
}

/// A value read at another integer type, when the value fits and can be
/// written down with a sign.
pub open spec fn spec_preserved(value: Known, seed: Known) -> Option<Known> {
    let there = spec_converted(value, seed);
    if value.val() == there.val() && value.val() <= i128::MAX {
        Some(there)
    } else {
        None
    }
}

fn semantic(value: Known) -> (r: Option<i128>)
    requires
        value.wf(),
    ensures
        r == (if value.val() <= i128::MAX {
            Some(value.val() as i128)
        } else {
            None
        }),
{
    proof {
        value.stands();
        value::ones_fit((value.width - 1) as nat);
    }
    if value.is_signed() {
        Some(value.as_signed())
    } else if value.bits <= i128::MAX as u128 {
        Some(value.bits as i128)
    } else {
        None
    }
}

/// Reads a value at another integer type, when the value fits.
pub fn preserved(value: Known, seed: Known) -> (r: Option<Known>)
    requires
        value.wf(),
        seed.wf(),
    ensures
        r == spec_preserved(value, seed),
        match r {
            Some(k) => k.wf(),
            None => true,
        },
{
    let there = converted(value, seed);
    proof {
        value.stands();
        there.stands();
        value::ones_fit((value.width - 1) as nat);
        value::ones_fit((there.width - 1) as nat);
    }
    match (semantic(value), semantic(there)) {
        (Some(a), Some(b)) => if a == b {
            Some(there)
        } else {
            None
        },
        _ => None,
    }
}

/// A claim read at another integer type.
pub open spec fn spec_recast(claim: Claim, seed: Known) -> Option<Claim> {
    match claim {
        Claim::Exact(known) => Some(Claim::Exact(spec_converted(known, seed))),
        Claim::Other(known) => if seed.width >= known.width {
            Some(Claim::spec_other_than(spec_converted(known, seed)))
        } else {
            None
        },
        Claim::Within(bounds) => between(
            spec_preserved(bounds.lo, seed),
            spec_preserved(bounds.hi, seed),
        ),
        Claim::Length(_) => None,
    }
}

/// Reads a claim at another integer type.
///
/// A cast that cannot lose information keeps values apart, so whatever the
/// source differs from, the result differs from too. A range survives a cast
/// only when both ends keep their mathematical value, which is when the map
/// is order preserving.
pub fn recast(claim: Claim, seed: Known) -> (r: Option<Claim>)
    requires
        claim.wf(),
        seed.wf(),
    ensures
        r == spec_recast(claim, seed),
        match r {
            Some(v) => v.wf(),
            None => true,
        },
{
    match claim {
        Claim::Exact(known) => Some(Claim::Exact(converted(known, seed))),
        Claim::Other(known) => if seed.width >= known.width {
            Some(Claim::other_than(converted(known, seed)))
        } else {
            None
        },
        Claim::Within(bounds) => ends(preserved(bounds.lo, seed), preserved(bounds.hi, seed)),
        Claim::Length(_) => None,
    }
}

/// A product with one side moved between two ends lies between the products
/// at those ends.
proof fn product_between(x: int, a: int, b: int, y: int)
    requires
        a <= x <= b,
    ensures
        a * y <= x * y <= b * y || b * y <= x * y <= a * y,
{
    if y >= 0 {
        assert(a * y <= x * y <= b * y) by (nonlinear_arith)
            requires
                a <= x <= b,
                y >= 0,
        ;
    } else {
        assert(b * y <= x * y <= a * y) by (nonlinear_arith)
            requires
                a <= x <= b,
                y < 0,
        ;
    }
}

/// The smallest range over some values holds each of them.
proof fn covers(values: Seq<Known>, n: nat, i: int)
    requires
        0 <= i < n <= values.len(),
        forall|k: int| 0 <= k < n ==> (#[trigger] values[k]).wf(),
        Bounds::cover(values, n) is Some,
    ensures
        Bounds::cover(values, n)->Some_0.wf(),
        Bounds::cover(values, n)->Some_0.holds(values[i]),
    decreases n,
{
    assert(values[i].wf());
    if n > 1 {
        assert(values[n - 1].wf());
        if i < n - 1 {
            covers(values, (n - 1) as nat, i);
        } else {
            covers(values, (n - 1) as nat, 0);
        }
    }
}

/// A value with a number between those of some values is in the smallest range
/// over them.
proof fn covered_between(values: Seq<Known>, n: nat, i: int, j: int, k: Known)
    requires
        0 <= i < n <= values.len(),
        0 <= j < n,
        forall|m: int| 0 <= m < n ==> (#[trigger] values[m]).wf(),
        Bounds::cover(values, n) is Some,
        k.same(values[i]),
        values[i].val() <= k.val() <= values[j].val(),
    ensures
        Bounds::cover(values, n)->Some_0.holds(k),
{
    covers(values, n, i);
    covers(values, n, j);
}

proof fn sums_are_conservative(op: BinOp, left: Bounds, right: Bounds, x: Known, y: Known)
    requires
        left.wf(),
        right.wf(),
        x.wf(),
        y.wf(),
        left.holds(x),
        right.holds(y),
        op is Add || op is Sub,
        spec_spanned(op, left, right) is Some,
    ensures
        x.spec_arith(op, y) is Some,
        spec_spanned(op, left, right)->Some_0 is Within,
        spec_spanned(op, left, right)->Some_0->Within_0.holds(x.spec_arith(op, y)->Some_0),
{
    let (a, b, c, d) = (left.lo.val(), left.hi.val(), right.lo.val(), right.hi.val());
    let (p, q, v) = if op is Add {
        (a + c, b + d, x.val() + y.val())
    } else {
        (a - d, b - c, x.val() - y.val())
    };
    left.lo.placed(p);
    left.hi.placed(q);
    x.placed(v);
    let ends = seq![left.lo.at(p), left.hi.at(q)];
    assert(ends[0] == left.lo.at(p) && ends[1] == left.hi.at(q));
    assert(spec_spanned(op, left, right) == within(Bounds::cover(ends, 2)));
    covered_between(ends, 2, 0, 1, x.at(v));
}

/// Where a product with each side moved between two ends lies: between two of
/// the four corners.
proof fn product_corners(v: int, w: int, a: int, b: int, c: int, d: int) -> (r: (int, int))
    requires
        a <= v <= b,
        c <= w <= d,
    ensures
        0 <= r.0 < 4,
        0 <= r.1 < 4,
        seq![a * c, a * d, b * c, b * d][r.0] <= v * w <= seq![a * c, a * d, b * c, b * d][r.1],
{
    product_between(v, a, b, w);
    product_between(w, c, d, a);
    product_between(w, c, d, b);
    assert(a * w == w * a && b * w == w * b && a * c == c * a && a * d == d * a && b * c == c * b
        && b * d == d * b) by (nonlinear_arith);
    let low: int = if a * c <= v * w {
        0
    } else if a * d <= v * w {
        1
    } else if b * c <= v * w {
        2
    } else {
        3
    };
    let high: int = if a * c >= v * w {
        0
    } else if a * d >= v * w {
        1
    } else if b * c >= v * w {
        2
    } else {
        3
    };
    (low, high)
}

proof fn products_are_conservative(left: Bounds, right: Bounds, x: Known, y: Known)
    requires
        left.wf(),
        right.wf(),
        x.wf(),
        y.wf(),
        left.holds(x),
        right.holds(y),
        spec_spanned(BinOp::Mul, left, right) is Some,
    ensures
        x.spec_arith(BinOp::Mul, y) is Some,
        spec_spanned(BinOp::Mul, left, right)->Some_0 is Within,
        spec_spanned(BinOp::Mul, left, right)->Some_0->Within_0.holds(
            x.spec_arith(BinOp::Mul, y)->Some_0,
        ),
{
    let (a, b, c, d) = (left.lo.val(), left.hi.val(), right.lo.val(), right.hi.val());
    let v = x.val() * y.val();
    let nums = seq![a * c, a * d, b * c, b * d];
    let ends = seq![left.lo.at(a * c), left.lo.at(a * d), left.hi.at(b * c), left.hi.at(b * d)];
    assert(spec_spanned(BinOp::Mul, left, right) == within(Bounds::cover(ends, 4)));
    let (i, j) = product_corners(x.val(), y.val(), a, b, c, d);
    left.lo.placed(a * c);
    left.lo.placed(a * d);
    left.hi.placed(b * c);
    left.hi.placed(b * d);
    assert(forall|m: int|
        0 <= m < 4 ==> (#[trigger] ends[m]).wf() && ends[m].val() == nums[m] && ends[m].same(x));
    x.placed(v);
    covered_between(ends, 4, i, j, x.at(v));
}

/// Where arithmetic on two ranges is given a range, arithmetic on any two
/// values in them stays inside their type and lands in that range.
pub proof fn arithmetic_is_conservative(op: BinOp, left: Bounds, right: Bounds, x: Known, y: Known)
    requires
        left.wf(),
        right.wf(),
        x.wf(),
        y.wf(),
        left.holds(x),
        right.holds(y),
        spec_spanned(op, left, right) is Some,
    ensures
        x.spec_arith(op, y) is Some,
        spec_spanned(op, left, right)->Some_0 is Within,
        spec_spanned(op, left, right)->Some_0->Within_0.holds(x.spec_arith(op, y)->Some_0),
{
    if op is Mul {
        products_are_conservative(left, right, x, y);
    } else {
        sums_are_conservative(op, left, right, x, y);
    }
}

/// Where a division or a remainder of two ranges is given a range, that of
/// any two values in them lands in it, and the divisor is never zero.
pub proof fn division_is_conservative(op: BinOp, left: Bounds, right: Bounds, x: Known, y: Known)
    requires
        left.wf(),
        right.wf(),
        x.wf(),
        y.wf(),
        left.holds(x),
        right.holds(y),
        spec_split(op, left, right) is Some,
    ensures
        y.val() > 0,
        spec_split(op, left, right)->Some_0 is Within,
        ({
            let b = spec_split(op, left, right)->Some_0->Within_0;
            let v = if op is Div {
                x.val() / y.val()
            } else {
                x.val() % y.val()
            };
            b.lo.val() <= v <= b.hi.val()
        }),
{
    x.stands();
    y.stands();
    let (a, b, c, d) = (left.lo.val(), left.hi.val(), right.lo.val(), right.hi.val());
    let v = x.val();
    let w = y.val();
    match op {
        BinOp::Div => {
            assert(a / d <= v / w <= b / c) by (nonlinear_arith)
                requires
                    0 <= a <= v <= b,
                    0 < c <= w <= d,
            ;
        },
        BinOp::Rem => {
            right.hi.placed(d - 1);
            assert(0 <= v % w <= v) by (nonlinear_arith)
                requires
                    0 <= v,
                    0 < w,
            ;
            assert(v % w < w) by (nonlinear_arith)
                requires
                    0 < w,
            ;
        },
        _ => {},
    }
}

/// Setting or flipping bits never reaches above the highest bit either side
/// carries.
proof fn bits_stay_low(a: u128, b: u128, k: nat)
    requires
        a <= value::ones(k),
        b <= value::ones(k),
    ensures
        (a | b) <= value::ones(k),
        (a ^ b) <= value::ones(k),
    decreases k,
{
    if k == 0 {
        assert(0u128 | 0u128 == 0 && 0u128 ^ 0u128 == 0) by (bit_vector);
    } else {
        bits_stay_low(a / 2, b / 2, (k - 1) as nat);
        assert((a | b) <= 2 * ((a / 2) | (b / 2)) + 1 && (a ^ b) <= 2 * ((a / 2) ^ (b / 2)) + 1)
            by (bit_vector);
    }
}

/// A number is no larger than itself with every lower bit set, and what is no
/// larger than that is written with as many bits.
proof fn filling(bits: nat) -> (k: nat)
    ensures
        value::filled(bits) == value::ones(k),
        bits <= value::filled(bits),
    decreases bits,
{
    if bits == 0 {
        0
    } else {
        let k = filling(bits / 2);
        k + 1
    }
}

/// Where a bitwise operator on two ranges is given a range, what it makes of
/// any two values in them lands in it.
pub proof fn bits_are_conservative(op: BinOp, left: Bounds, right: Bounds, x: Known, y: Known)
    requires
        left.wf(),
        right.wf(),
        x.wf(),
        y.wf(),
        x.same(y),
        left.holds(x),
        right.holds(y),
        bits_of(op, x.bits, y.bits) is Some,
        spec_bitwise(op, left, right) is Some,
    ensures
        spec_bitwise(op, left, right)->Some_0 is Within,
        spec_bitwise(op, left, right)->Some_0->Within_0.holds(
            Known { bits: bits_of(op, x.bits, y.bits)->Some_0, ..x },
        ),
{
    x.stands();
    y.stands();
    left.hi.stands();
    right.hi.stands();
    left.lo.stands();
    right.lo.stands();
    let a = x.bits;
    let b = y.bits;
    let limit = if x.signed() {
        (x.width - 1) as nat
    } else {
        x.width as nat
    };
    value::ones_fit(x.width as nat);
    match op {
        BinOp::BitAnd => {
            assert((a & b) <= a && (a & b) <= b) by (bit_vector);
        },
        BinOp::BitOr | BinOp::BitXor => {
            assert((a | b) >= a && (a | b) >= b) by (bit_vector);
            let top = left.hi.spec_greater(right.hi)->Some_0;
            let k = filling(top.bits as nat);
            bits_stay_low(a, b, k);
            bits_stay_low(a, b, limit);
            filled_fits(top.bits as nat, limit);
            value::ones_grow(limit, x.width as nat);
        },
        _ => {},
    }
}

/// Setting every lower bit does not make a number longer.
proof fn filled_fits(bits: nat, limit: nat)
    requires
        bits <= value::ones(limit),
    ensures
        value::filled(bits) <= value::ones(limit),
    decreases limit,
{
    if limit > 0 && bits > 0 {
        filled_fits(bits / 2, (limit - 1) as nat);
    }
}

/// Where a shift of a range is given a range, the shift of any value in it
/// means what the arithmetic says and lands in that range.
pub proof fn shifting_is_conservative(op: BinOp, span: Bounds, amount: Known, x: Known)
    requires
        span.wf(),
        x.wf(),
        span.holds(x),
        spec_moved(op, span, Some(amount)) is Some,
    ensures
        x.spec_shifted(op, amount.bits as u32) is Some,
        spec_moved(op, span, Some(amount))->Some_0 is Within,
        spec_moved(op, span, Some(amount))->Some_0->Within_0.holds(
            x.spec_shifted(op, amount.bits as u32)->Some_0,
        ),
{
    let n = amount.bits as u32;
    let m = value::span(n as nat) as int;
    let (lo, v, hi) = (span.lo.val(), x.val(), span.hi.val());
    x.stands();
    span.lo.stands();
    span.hi.stands();
    match op {
        BinOp::Shr | BinOp::ShrUnchecked => {
            assert(lo / m <= v / m <= hi / m) by (nonlinear_arith)
                requires
                    lo <= v <= hi,
                    m >= 1,
            ;
            span.lo.shrinks(n as nat);
            span.hi.shrinks(n as nat);
            x.shrinks(n as nat);
            span.lo.placed(lo / m);
            span.hi.placed(hi / m);
            x.placed(v / m);
        },
        BinOp::Shl | BinOp::ShlUnchecked => {
            assert(lo * m <= v * m <= hi * m) by (nonlinear_arith)
                requires
                    lo <= v <= hi,
                    m >= 1,
            ;
            span.lo.placed(lo * m);
            span.hi.placed(hi * m);
            x.placed(v * m);
        },
        _ => {},
    }
}

/// A number of a type is the number its low bits stand for there.
proof fn reads_back(v: int, seed: Known)
    requires
        seed.wf(),
        seed.fits(v),
    ensures
        (Known { bits: value::low_bits(v, seed.width as nat) as u128, ..seed }).val() == v,
        (Known { bits: value::low_bits(v, seed.width as nat) as u128, ..seed }).wf(),
{
    let w = value::span(seed.width as nat) as int;
    value::ones_fit(seed.width as nat);
    seed.placed(v);
    value::ones_grow((seed.width - 1) as nat, seed.width as nat);
    assert(value::span(seed.width as nat) == 2 * value::span((seed.width - 1) as nat));
    if v >= 0 {
        vstd::arithmetic::div_mod::lemma_small_mod(v as nat, w as nat);
    } else {
        vstd::arithmetic::div_mod::lemma_small_mod((v + w) as nat, w as nat);
        vstd::arithmetic::div_mod::lemma_mod_multiples_vanish(1, v, w);
    }
}

/// What a claim read at another type admits is what the values it admitted
/// read as there.
pub proof fn casting_is_conservative(
    claim: Claim,
    seed: Known,
    x: Known,
    measure: spec_fn(crate::value::Local) -> int,
)
    requires
        claim.wf(),
        seed.wf(),
        x.wf(),
        claim.allows(x, measure),
        spec_recast(claim, seed) is Some,
        seed.ty.form is Bool ==> !(claim is Other),
    ensures
        spec_recast(claim, seed)->Some_0.allows(spec_converted(x, seed), measure),
{
    x.stands();
    match claim {
        Claim::Exact(known) => {},
        Claim::Other(known) => {
            known.stands();
            if spec_converted(x, seed) == spec_converted(known, seed) {
                let a = x.val();
                let b = known.val();
                let w = value::span(seed.width as nat) as int;
                value::ones_grow(known.width as nat, seed.width as nat);
                value::ones_fit(seed.width as nat);
                assert(a % w == b % w) by {
                    assert(0 <= a % w < w && 0 <= b % w < w) by (nonlinear_arith)
                        requires
                            w > 0,
                    ;
                }
                assert(a == b) by (nonlinear_arith)
                    requires
                        a % w == b % w,
                        -w < a - b < w,
                ;
                x.told_apart(known);
            }
        },
        Claim::Within(bounds) => {
            bounds.lo.stands();
            bounds.hi.stands();
            let lo = spec_converted(bounds.lo, seed);
            let hi = spec_converted(bounds.hi, seed);
            assert(lo.wf() && hi.wf()) by {
                let w = value::span(seed.width as nat) as int;
                value::ones_fit(seed.width as nat);
                assert(0 <= bounds.lo.val() % w < w && 0 <= bounds.hi.val() % w < w)
                    by (nonlinear_arith)
                    requires
                        w > 0,
                ;
            }
            lo.stands();
            hi.stands();
            reads_back(x.val(), seed);
        },
        Claim::Length(_) => {},
    }
}

} // verus!
