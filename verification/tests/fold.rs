//! What folding a body shows it to reach.

use panicgraph::flow::{reached_from, resuming, unavoidable};
use panicgraph::fold::{reachable, Folder};
use panicgraph::mir::{
    Arm, Assert, Block, Function, Kind, Operand, Place, Program, Rvalue, Statement, Terminator, Type, Unwind,
};
use panicgraph::state::blank;
use panicgraph::value::{BinOp, Form, Local};

/// An unsigned number of a width.
fn uint(id: u32, width: u32) -> Type {
    Type { id, kind: Kind::Number(Form::Uint, width) }
}

fn boolean() -> Type {
    Type { id: 0, kind: Kind::Number(Form::Bool, 8) }
}

fn size() -> Type {
    uint(1, 64)
}

fn word() -> Type {
    uint(2, 32)
}

/// A local as a whole.
fn whole(local: usize, ty: Type) -> Place {
    Place { local: Local(local), steps: Vec::new(), ty: Some(ty) }
}

fn read(local: usize, ty: Type) -> Operand {
    Operand::Read(whole(local, ty), false)
}

fn constant(value: u128, ty: Type) -> Operand {
    Operand::Constant(Some(value), Some(ty))
}

fn block(statements: Vec<Statement>, terminator: Terminator) -> Block {
    Block { statements, terminator: Some(terminator), cleanup: false }
}

fn program(function: Function) -> Program {
    Program { functions: vec![function], enums: Vec::new(), boolean: boolean(), size: size() }
}

/// A check that what a local holds is false.
fn refuse(local: usize, target: usize, unwind: Unwind) -> Terminator {
    Terminator::Assert(Assert {
        cond: read(local, boolean()),
        expected: false,
        target,
        unwind,
        message: Vec::new(),
    })
}

/// `a / b`, with the check that `b` is not zero, and without a guard.
fn divide() -> Function {
    Function {
        locals: vec![Some(word()), Some(word()), Some(word()), Some(boolean())],
        params: 2,
        blocks: vec![
            block(
                vec![Statement::Assign(
                    whole(3, boolean()),
                    Rvalue::Binary(BinOp::Eq, read(2, word()), constant(0, word())),
                )],
                refuse(3, 1, Unwind::Continue),
            ),
            block(
                vec![Statement::Assign(
                    whole(0, word()),
                    Rvalue::Binary(BinOp::Div, read(1, word()), read(2, word())),
                )],
                Terminator::Return,
            ),
        ],
        named: Vec::new(),
    }
}

/// `if b == 0 { 0 } else { a / b }`, with the check of the division.
#[allow(dead_code)]
fn guarded_divide() -> Function {
    Function {
        locals: vec![Some(word()), Some(word()), Some(word()), Some(boolean())],
        params: 2,
        blocks: vec![
            block(
                Vec::new(),
                Terminator::Switch(
                    read(2, word()),
                    vec![Arm { value: 0, target: 1 }],
                    2,
                ),
            ),
            block(
                vec![Statement::Assign(
                    whole(0, word()),
                    Rvalue::Use(constant(0, word())),
                )],
                Terminator::Return,
            ),
            block(
                vec![Statement::Assign(
                    whole(3, boolean()),
                    Rvalue::Binary(BinOp::Eq, read(2, word()), constant(0, word())),
                )],
                refuse(3, 3, Unwind::Continue),
            ),
            block(
                vec![Statement::Assign(
                    whole(0, word()),
                    Rvalue::Binary(BinOp::Div, read(1, word()), read(2, word())),
                )],
                Terminator::Return,
            ),
        ],
        named: Vec::new(),
    }
}

/// Divides by a constant that is zero.
fn divide_by_nothing() -> Function {
    let mut function = divide();
    function.blocks[0].statements.insert(
        0,
        Statement::Assign(whole(2, word()), Rvalue::Use(constant(0, word()))),
    );
    function
}

#[test]
fn an_unguarded_check_is_not_settled() {
    let reach = reachable(&program(divide()), 0);
    assert!(reach.is_live(0) && reach.is_live(1));
    assert!(!reach.is_settled(0));
    assert!(!reach.is_failing(0));
}

#[test]
fn a_guard_settles_the_check_behind_it() {
    let reach = reachable(&program(guarded_divide()), 0);
    assert!((0..4).all(|b| reach.is_live(b)));
    assert!(reach.is_settled(2), "the divisor is known not to be zero there");
}

#[test]
fn an_inverted_guard_settles_nothing_but_the_failure() {
    let mut function = guarded_divide();
    function.blocks[0].terminator = Some(Terminator::Switch(
        read(2, word()),
        vec![Arm { value: 0, target: 2 }],
        1,
    ));
    let reach = reachable(&program(function), 0);
    assert!(!reach.is_settled(2));
    assert!(reach.is_failing(2), "the divisor is zero whenever the check runs");
    assert!(!reach.is_live(3), "nothing gets past a check that always fails");
}

#[test]
fn a_check_of_a_constant_that_fails_is_failing() {
    let reach = reachable(&program(divide_by_nothing()), 0);
    assert!(reach.is_failing(0));
    assert!(!reach.is_live(1));
}

#[test]
fn a_branch_on_a_constant_leaves_the_other_arm_dead() {
    let mut function = guarded_divide();
    function.blocks[0].statements.push(Statement::Assign(
        whole(2, word()),
        Rvalue::Use(constant(7, word())),
    ));
    let reach = reachable(&program(function), 0);
    assert!(!reach.is_live(1));
    assert!(reach.is_live(2));
    assert!(reach.is_settled(2));
}

#[test]
fn a_loop_counter_stays_below_its_limit() {
    // `let mut i = 0; while i < 10 { check(i < 10); i += 1 }`
    let function = Function {
        locals: vec![None, Some(word()), Some(boolean()), Some(boolean())],
        params: 0,
        blocks: vec![
            block(
                vec![Statement::Assign(
                    whole(1, word()),
                    Rvalue::Use(constant(0, word())),
                )],
                Terminator::Goto(1),
            ),
            block(
                vec![Statement::Assign(
                    whole(2, boolean()),
                    Rvalue::Binary(BinOp::Lt, read(1, word()), constant(10, word())),
                )],
                Terminator::Switch(
                    read(2, boolean()),
                    vec![Arm { value: 0, target: 4 }],
                    2,
                ),
            ),
            block(
                vec![Statement::Assign(
                    whole(3, boolean()),
                    Rvalue::Binary(BinOp::Lt, read(1, word()), constant(10, word())),
                )],
                Terminator::Assert(Assert {
                    cond: read(3, boolean()),
                    expected: true,
                    target: 3,
                    unwind: Unwind::Continue,
                    message: Vec::new(),
                }),
            ),
            block(
                vec![Statement::Assign(
                    whole(1, word()),
                    Rvalue::Binary(BinOp::Add, read(1, word()), constant(1, word())),
                )],
                Terminator::Goto(1),
            ),
            block(Vec::new(), Terminator::Return),
        ],
        named: Vec::new(),
    };
    let reach = reachable(&program(function), 0);
    assert!((0..5).all(|b| reach.is_live(b)));
    assert!(reach.is_settled(2));
}

#[test]
fn a_walk_cut_short_claims_nothing() {
    let program = program(guarded_divide());
    let walk = |budget: u32| {
        Folder::new(&program, 0, 0, budget)
            .expect("the slots should be countable")
            .run(blank(4))
    };
    let full = walk(100);
    assert!(full.is_settled(2));
    for budget in 0..3 {
        let short = walk(budget);
        assert!((0..4).all(|b| short.is_live(b)));
        assert!((0..4).all(|b| !short.is_settled(b) && !short.is_failing(b)));
    }
    assert!(walk(4).is_settled(2), "four blocks cost four visits");
}

#[test]
fn an_entry_covers_what_a_later_turn_sends() {
    // `let mut b = 1; loop { a / b; b = next }`, for one next value or another.
    let turning = |next: u128| Function {
        locals: vec![Some(word()), Some(word()), Some(word()), Some(boolean())],
        params: 1,
        blocks: vec![
            block(
                vec![Statement::Assign(
                    whole(2, word()),
                    Rvalue::Use(constant(1, word())),
                )],
                Terminator::Goto(1),
            ),
            block(
                vec![Statement::Assign(
                    whole(3, boolean()),
                    Rvalue::Binary(BinOp::Eq, read(2, word()), constant(0, word())),
                )],
                refuse(3, 2, Unwind::Continue),
            ),
            block(
                vec![Statement::Assign(
                    whole(2, word()),
                    Rvalue::Use(constant(next, word())),
                )],
                Terminator::Goto(1),
            ),
        ],
        named: Vec::new(),
    };
    let harmless = reachable(&program(turning(5)), 0);
    assert!(harmless.is_settled(1), "neither one nor five is zero");
    let harmful = reachable(&program(turning(0)), 0);
    assert!(harmful.is_live(2));
    assert!(
        !harmful.is_settled(1),
        "the first turn settles the check, and the second brings a zero to it"
    );
}

#[test]
fn a_cleanup_path_resumes_only_where_it_ends_in_a_resume() {
    let mut function = divide();
    function.blocks[0].terminator = Some(refuse(3, 1, Unwind::Cleanup(2)));
    let mut clean = block(Vec::new(), Terminator::Goto(3));
    clean.cleanup = true;
    let mut last = block(Vec::new(), Terminator::Resume);
    last.cleanup = true;
    function.blocks.push(clean);
    function.blocks.push(last);
    assert_eq!(resuming(&function), vec![true, false, true, true]);
    assert_eq!(reached_from(&function, 2), vec![false, false, true, true]);
    function.blocks[3].terminator = Some(Terminator::Stop);
    assert_eq!(resuming(&function), vec![false, false, false, false]);
}

#[test]
fn a_block_every_way_passes_is_unavoidable() {
    let program = program(guarded_divide());
    let reach = reachable(&program, 0);
    let function = &program.functions[0];
    assert!(!unavoidable(function, &reach, 1), "the other arm gets round it");
    let straight = Program {
        functions: vec![divide()],
        enums: Vec::new(),
        boolean: boolean(),
        size: size(),
    };
    let reach = reachable(&straight, 0);
    assert!(unavoidable(&straight.functions[0], &reach, 1));
}

#[test]
fn a_loop_may_be_a_way_round() {
    let mut function = divide();
    function.blocks[0].terminator = Some(Terminator::Switch(
        read(3, boolean()),
        vec![Arm { value: 0, target: 0 }],
        1,
    ));
    let program = program(function);
    let reach = reachable(&program, 0);
    assert!(!unavoidable(&program.functions[0], &reach, 1));
}
