//! What is claimed of values, and what operations make of the claims.

use panicgraph::ranges::{bitwise, converted, moved, preserved, recast, settled, spanned, split};
use panicgraph::value::{
    all_ones, compare, mirrored, negated, spans_compare, truncate, BinOp, Bounds, Claim, Fact, Form, Known,
    LenRel, Local, Ranks, Side, Thresholds, Ty,
};

fn byte(bits: u128) -> Known {
    Known { bits, ty: Ty { id: 1, form: Form::Uint }, width: 8 }
}

fn signed(value: i128) -> Known {
    Known { bits: truncate(value as u128, 8), ty: Ty { id: 2, form: Form::Int }, width: 8 }
}

fn word(bits: u128) -> Known {
    Known { bits, ty: Ty { id: 3, form: Form::Uint }, width: 16 }
}

fn span(lo: u128, hi: u128) -> Bounds {
    Bounds::new(byte(lo), byte(hi)).expect("the ends are in order")
}

fn within(claim: Option<Claim>) -> Option<(u128, u128)> {
    claim.and_then(Claim::bounds).map(|b| (b.lo.bits, b.hi.bits))
}

#[test]
fn ones_and_low_bits() {
    assert_eq!(all_ones(8), 255);
    assert_eq!(all_ones(128), u128::MAX);
    assert_eq!(truncate(0x1ff, 8), 0xff);
}

#[test]
fn a_known_value_knows_its_sign_and_neighbours() {
    assert_eq!(signed(-3).as_signed(), -3);
    assert_eq!(signed(-128).predecessor(), None);
    assert_eq!(byte(255).successor(), None);
    assert_eq!(byte(7).successor(), Some(byte(8)));
    assert_eq!(signed(-1).order(signed(1)), Some(Side::Less));
    assert_eq!(byte(255).order(byte(1)), Some(Side::Greater));
    assert_eq!(byte(1).order(word(1)), None, "values of two types are not compared");
}

#[test]
fn arithmetic_that_overflows_claims_nothing() {
    assert_eq!(byte(250).arith(BinOp::Add, byte(5)), Some(byte(255)));
    assert_eq!(byte(250).arith(BinOp::Add, byte(6)), None);
    assert_eq!(signed(-100).arith(BinOp::Sub, signed(29)), None);
    assert_eq!(byte(6).quotient(byte(0)), None);
    assert_eq!(byte(6).quotient(byte(4)), Some(byte(1)));
}

#[test]
fn ranges_add_end_to_end() {
    assert_eq!(within(spanned(BinOp::Add, span(1, 2), span(3, 4))), Some((4, 6)));
    assert_eq!(within(spanned(BinOp::Sub, span(5, 9), span(1, 2))), Some((3, 8)));
    assert_eq!(within(spanned(BinOp::Mul, span(2, 3), span(4, 5))), Some((8, 15)));
    assert_eq!(spanned(BinOp::Add, span(200, 255), span(1, 1)), None);
}

#[test]
fn ranges_divide_and_mask() {
    assert_eq!(within(split(BinOp::Div, span(8, 20), span(2, 4))), Some((2, 10)));
    assert_eq!(within(split(BinOp::Rem, span(0, 255), span(8, 8))), Some((0, 7)));
    assert_eq!(within(bitwise(BinOp::BitAnd, span(0, 255), span(7, 7))), Some((0, 7)));
    assert_eq!(within(moved(BinOp::Shr, span(0, 255), Some(byte(4)))), Some((0, 15)));
    assert_eq!(moved(BinOp::Shr, span(0, 255), None), None);
}

#[test]
fn constants_settle() {
    assert_eq!(settled(BinOp::BitXor, byte(0b1100), byte(0b1010)), Some(byte(0b0110)));
    assert_eq!(settled(BinOp::Div, byte(7), byte(0)), None);
}

#[test]
fn casts_keep_what_fits() {
    assert_eq!(converted(word(0x1ff), byte(0)), byte(0xff));
    assert_eq!(preserved(word(0x1ff), byte(0)), None);
    assert_eq!(preserved(word(0x7f), byte(0)), Some(byte(0x7f)));
    let claim = Claim::Within(Bounds::new(word(3), word(9)).expect("in order"));
    assert_eq!(within(recast(claim, byte(0))), Some((3, 9)));
    let wide = Claim::Within(Bounds::new(word(3), word(300)).expect("in order"));
    assert_eq!(recast(wide, byte(0)), None);
}

#[test]
fn joining_keeps_only_what_both_say() {
    let a = Fact::of(Claim::Exact(byte(3)));
    let b = Fact::of(Claim::Exact(byte(9)));
    let both = a.joined(b).value.and_then(Claim::bounds).expect("a range");
    assert_eq!((both.lo, both.hi), (byte(3), byte(9)));
    assert_eq!(a.joined(Fact::blank()).value, None);
}

#[test]
fn widening_stops_at_a_mark() {
    let mut stops = Thresholds::none();
    stops.add(10);
    let grown = Claim::Within(span(0, 4)).widened(Claim::Within(span(0, 3)), &stops);
    assert_eq!(within(grown), Some((0, 10)));
    let past = Claim::Within(span(0, 11)).widened(Claim::Within(span(0, 10)), &stops);
    assert!(past.is_none() || within(past) == Some((0, 255)));
}

#[test]
fn comparisons_of_ranges_settle_when_they_do_not_meet() {
    assert_eq!(spans_compare(BinOp::Lt, span(0, 3), span(4, 9)), Some(true));
    assert_eq!(spans_compare(BinOp::Lt, span(4, 9), span(0, 4)), Some(false));
    assert_eq!(spans_compare(BinOp::Lt, span(0, 5), span(4, 9)), None);
    let below = Fact { order: Ranks::of(LenRel::Below, Local(3)), ..Fact::blank() };
    let length = Fact::of(Claim::Length(Local(3)));
    assert_eq!(compare(BinOp::Lt, below, length), Some(true));
    assert_eq!(compare(BinOp::Lt, Fact::blank(), length), None);
}

#[test]
fn operators_turn_round() {
    assert_eq!(mirrored(BinOp::Lt), BinOp::Gt);
    assert_eq!(negated(BinOp::Lt), BinOp::Ge);
    assert_eq!(negated(negated(BinOp::Eq)), BinOp::Eq);
}

#[test]
fn ruling_out_an_end_narrows_a_range() {
    assert_eq!(within(Claim::without(span(0, 9), byte(0))), Some((1, 9)));
    assert_eq!(within(Claim::without(span(0, 9), byte(9))), Some((0, 8)));
    assert_eq!(within(Some(Claim::Within(span(0, 9)).refined(Claim::Within(span(4, 20))))), Some((4, 9)));
}
