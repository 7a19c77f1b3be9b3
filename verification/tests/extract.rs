//! What reading a body records of it.

use panicgraph::extract::{
    classify_assert, operation_of, panic_message, scan, AssertKind, Build, Callee, Definition, Enclosing, End, Glue, Handed,
    Impl, Intrinsic, Named, Note, Operation, Outline, Points, Raw, Runs, Seen, Shape, Target, Validity, Write,
};
use panicgraph::fold::reachable;
use panicgraph::mir::{
    Arm, Assert, Block, Call, Function, Kind, Operand, Place, Program, Rvalue, Statement, Terminator, Type, Unwind,
};
use panicgraph::record::{display_of, loc_of, of_package, open_symbol, Extractor, Standing, Subject};
use panicgraph::sinks::Signature;
use panicgraph::value::{BinOp, Form, Local};
use panicgraph::{Category, EdgeKind, FuncKey, Termination, UnwindOrigin};

/// An unsigned number of a width.
fn uint(id: u32, width: u32) -> Type {
    Type { id, kind: Kind::Number(Form::Uint, width) }
}

fn boolean() -> Type {
    Type { id: 0, kind: Kind::Number(Form::Bool, 8) }
}

fn size() -> Type {
    uint(1, 64)
}

fn word() -> Type {
    uint(2, 32)
}

/// A local as a whole.
fn whole(local: usize, ty: Type) -> Place {
    Place { local: Local(local), steps: Vec::new(), ty: Some(ty) }
}

fn read(local: usize, ty: Type) -> Operand {
    Operand::Read(whole(local, ty), false)
}

fn constant(value: u128, ty: Type) -> Operand {
    Operand::Constant(Some(value), Some(ty))
}

fn block(statements: Vec<Statement>, terminator: Terminator) -> Block {
    Block { statements, terminator: Some(terminator), cleanup: false }
}

fn program(function: Function) -> Program {
    Program { functions: vec![function], enums: Vec::new(), boolean: boolean(), size: size() }
}

/// A check that what a local holds is false.
fn refuse(local: usize, target: usize, unwind: Unwind) -> Terminator {
    Terminator::Assert(Assert {
        cond: read(local, boolean()),
        expected: false,
        target,
        unwind,
        message: Vec::new(),
    })
}

/// `a / b`, with the check that `b` is not zero, and without a guard.
fn divide() -> Function {
    Function {
        locals: vec![Some(word()), Some(word()), Some(word()), Some(boolean())],
        params: 2,
        blocks: vec![
            block(
                vec![Statement::Assign(
                    whole(3, boolean()),
                    Rvalue::Binary(BinOp::Eq, read(2, word()), constant(0, word())),
                )],
                refuse(3, 1, Unwind::Continue),
            ),
            block(
                vec![Statement::Assign(
                    whole(0, word()),
                    Rvalue::Binary(BinOp::Div, read(1, word()), read(2, word())),
                )],
                Terminator::Return,
            ),
        ],
        named: Vec::new(),
    }
}

/// `if b == 0 { 0 } else { a / b }`, with the check of the division.
#[allow(dead_code)]
fn guarded_divide() -> Function {
    Function {
        locals: vec![Some(word()), Some(word()), Some(word()), Some(boolean())],
        params: 2,
        blocks: vec![
            block(
                Vec::new(),
                Terminator::Switch(
                    read(2, word()),
                    vec![Arm { value: 0, target: 1 }],
                    2,
                ),
            ),
            block(
                vec![Statement::Assign(
                    whole(0, word()),
                    Rvalue::Use(constant(0, word())),
                )],
                Terminator::Return,
            ),
            block(
                vec![Statement::Assign(
                    whole(3, boolean()),
                    Rvalue::Binary(BinOp::Eq, read(2, word()), constant(0, word())),
                )],
                refuse(3, 3, Unwind::Continue),
            ),
            block(
                vec![Statement::Assign(
                    whole(0, word()),
                    Rvalue::Binary(BinOp::Div, read(1, word()), read(2, word())),
                )],
                Terminator::Return,
            ),
        ],
        named: Vec::new(),
    }
}

/// Divides by a constant that is zero.
fn divide_by_nothing() -> Function {
    let mut function = divide();
    function.blocks[0].statements.insert(
        0,
        Statement::Assign(whole(2, word()), Rvalue::Use(constant(0, word()))),
    );
    function
}

const RELEASE: Build = Build { unwinds: true, overflow_checks: false };

fn ends(end: End) -> Outline {
    Outline { notes: Vec::new(), end, loc: None }
}

fn named(name: &str, work: usize) -> Named {
    Named { display: name.to_owned(), key: Some(FuncKey(name.to_owned())), work }
}

fn found(krate: &str, path: &str, runs: Runs) -> Target {
    Target {
        defined: Definition { krate: krate.to_owned(), path: path.to_owned() },
        signature: Signature { callable: true, readable: true, diverges: false, never_unwinds: false },
        named: named(&format!("{krate}::{path}"), 7),
        runs,
        message: None,
        discards: None,
    }
}

/// A body of one call, and the block it returns to.
fn one_call(unwind: Unwind) -> Function {
    let call = Call {
        func: None,
        contract: None,
        body: None,
        args: Vec::new(),
        destination: whole(0, word()),
        target: Some(1),
        unwind,
    };
    Function {
        locals: vec![Some(word())],
        params: 0,
        blocks: vec![
            block(Vec::new(), Terminator::Call(call)),
            block(Vec::new(), Terminator::Return),
        ],
        named: Vec::new(),
    }
}

/// Reads a body of one call.
fn calling(callee: Callee) -> Raw {
    let program = program(one_call(Unwind::Continue));
    let reach = reachable(&program, 0);
    let outlines = vec![ends(End::Call(callee)), ends(End::Other)];
    scan(RELEASE, &program.functions[0], &reach, &outlines, &mut Seen::nothing())
}

/// Reads a division.
fn dividing(function: Function, check: usize, build: Build, kind: AssertKind) -> Raw {
    let program = program(function);
    let reach = reachable(&program, 0);
    let outlines = (0..program.functions[0].blocks.len())
        .map(|b| ends(if b == check { End::Check(kind) } else { End::Other }))
        .collect();
    scan(build, &program.functions[0], &reach, &outlines, &mut Seen::nothing())
}

#[test]
fn checks_are_classified() {
    let (raise, reason) = classify_assert(AssertKind::BoundsCheck);
    assert_eq!((raise.category, raise.termination), (Category::Index, Termination::Unwind));
    assert_eq!(reason, "index out of bounds");
    let (raise, _) = classify_assert(AssertKind::MisalignedPointerDereference);
    assert_eq!((raise.category, raise.termination), (Category::MisalignedRef, Termination::Abort));
    let (raise, reason) = classify_assert(AssertKind::ResumedAfterDrop);
    assert_eq!(raise.category, Category::Explicit);
    assert_eq!(reason, "coroutine resumed after completion");
}

#[test]
fn an_unsettled_check_is_a_site() {
    let raw = dividing(divide(), 0, RELEASE, AssertKind::DivisionByZero);
    assert_eq!(raw.sites.len(), 1);
    assert_eq!(raw.sites[0].category, Category::DivideByZero);
    assert_eq!(raw.sites[0].reason, "attempt to divide by zero");
    assert!(!raw.sites[0].certain && !raw.sites[0].terminates);
    assert_eq!(raw.site_blocks, vec![0]);
    assert_eq!(raw.site_fires, vec![false]);
}

#[test]
fn a_settled_check_is_nothing() {
    let raw = dividing(guarded_divide(), 2, RELEASE, AssertKind::DivisionByZero);
    assert!(raw.sites.is_empty());
}

#[test]
fn a_check_that_always_fails_is_certain() {
    let raw = dividing(divide_by_nothing(), 0, RELEASE, AssertKind::DivisionByZero);
    assert_eq!(raw.site_fires, vec![true]);
    assert!(raw.sites[0].certain);
}

#[test]
fn an_optional_check_goes_with_the_setting() {
    let kind = AssertKind::Overflow(BinOp::Add);
    assert!(kind.is_optional_overflow_check());
    assert!(dividing(divide(), 0, RELEASE, kind).sites.is_empty());
    let checked = Build { unwinds: true, overflow_checks: true };
    assert_eq!(dividing(divide(), 0, checked, kind).sites[0].category, Category::Overflow);
    assert!(!AssertKind::Overflow(BinOp::Div).is_optional_overflow_check());
}

#[test]
fn an_aborting_build_has_no_cleanup_paths() {
    let mut function = divide();
    function.blocks[0].terminator = Some(refuse(3, 1, Unwind::Cleanup(2)));
    let mut clean = block(Vec::new(), Terminator::Resume);
    clean.cleanup = true;
    function.blocks.push(clean);
    let aborting = Build { unwinds: false, overflow_checks: false };
    let raw = dividing(function, 0, aborting, AssertKind::DivisionByZero);
    assert!(raw.unwind_edges.is_empty());
    assert!(raw.sites[0].terminates, "what cannot unwind ends the process");
}

#[test]
fn an_entry_point_is_a_site() {
    let mut target = found("core", "option::unwrap_failed", Runs::Function);
    target.message = Some("a".repeat(80));
    let raw = calling(Callee::Found(target));
    assert!(raw.calls.is_empty() && raw.successors.is_empty());
    assert_eq!(raw.sites[0].category, Category::Unwrap);
    assert_eq!(raw.sites[0].reason, format!("panics with \"{}...\"", "a".repeat(72)));
    assert_eq!(raw.sites[0].sink.as_deref(), Some("core::option::unwrap_failed"));
    let plain = calling(Callee::Found(found("core", "panicking::panic", Runs::Function)));
    assert_eq!(plain.sites[0].reason, "calls core::panicking::panic");
}

#[test]
fn an_entry_point_behind_a_reserve_stands_for_both_panics() {
    let raw = calling(Callee::Found(found("alloc", "raw_vec::handle_error", Runs::Function)));
    assert_eq!(raw.sites.len(), 2);
    assert_eq!(raw.sites[0].category, Category::CapacityOverflow);
    assert_eq!(raw.sites[1].category, Category::AllocFailure);
    assert_eq!(raw.sites[1].termination, Termination::Abort);
}

#[test]
fn a_short_message_is_kept() {
    assert_eq!(panic_message("explicit panic"), "explicit panic");
    assert_eq!(panic_message(&"x".repeat(72)), "x".repeat(72));
    assert_eq!(panic_message(&"x".repeat(73)), format!("{}...", "x".repeat(72)));
}

#[test]
fn an_ordinary_call_is_an_edge_to_expand() {
    let raw = calling(Callee::Found(found("test", "helper", Runs::Function)));
    assert_eq!(raw.calls.len(), 1);
    assert_eq!(raw.calls[0].kind, EdgeKind::Static);
    assert_eq!(raw.calls[0].callee.as_ref().map(|k| k.0.as_str()), Some("test::helper"));
    assert_eq!(raw.successors, vec![7]);
}

#[test]
fn calls_that_are_not_resolved_say_why() {
    let pointer = calling(Callee::Pointer("fn(u8)".to_owned()));
    assert_eq!(pointer.calls[0].kind, EdgeKind::FnPtr);
    assert_eq!(pointer.calls[0].callee_display, "<fn pointer>");
    assert_eq!(pointer.calls[0].sig.as_deref(), Some("fn(u8)"));
    let open = calling(Callee::Open("T::go".to_owned()));
    assert_eq!((open.calls[0].kind, open.calls[0].callee_display.as_str()), (EdgeKind::Generic, "T::go"));
    let lost = calling(Callee::Lost("f".to_owned()));
    assert_eq!(lost.calls[0].kind, EdgeKind::Unresolved);
    let unsettled = calling(Callee::Unsettled);
    assert_eq!(unsettled.calls[0].callee_display, "<unresolved>");
}

#[test]
fn a_call_through_an_object_names_its_candidates() {
    let one = |generic: bool, target: Option<Named>| Impl {
        generic,
        needs_drop: false,
        target,
        self_ty: "Dog".to_owned(),
    };
    let impls = vec![
        one(false, Some(named("Dog::speak", 3))),
        one(true, Some(named("Any::speak", 4))),
        one(false, None),
    ];
    let raw = calling(Callee::Found(found("test", "Speak::speak", Runs::Virtual(impls))));
    assert_eq!(raw.calls.len(), 2);
    assert!(!raw.calls[0].candidate && raw.calls[0].kind == EdgeKind::Vtable);
    assert!(raw.calls[1].candidate);
    assert_eq!(raw.calls[1].callee_display, "Dog::speak");
    assert_eq!(raw.calls[1].self_ty.as_deref(), Some("Dog"));
    assert_eq!(raw.successors, vec![3], "the object's own method has no body to expand");
}

#[test]
fn a_catch_runs_its_first_operand_behind_a_barrier() {
    let operands = vec![Handed::Local(4), Handed::Other, Handed::Constant(Some(named("caught", 9)))];
    let writes = vec![
        Write { local: 1, names: None },
        Write { local: 4, names: Some(named("body", 8)) },
    ];
    let intrinsic = Runs::Intrinsic(Intrinsic::Catch(operands, writes));
    let raw = calling(Callee::Found(found("core", "intrinsics::catch_unwind", intrinsic)));
    assert_eq!(raw.calls.len(), 2);
    assert_eq!((raw.calls[0].callee_display.as_str(), raw.calls[0].barrier), ("body", true));
    assert_eq!((raw.calls[1].callee_display.as_str(), raw.calls[1].barrier), ("caught", false));
    assert_eq!(raw.successors, vec![8, 9]);
}

#[test]
fn a_local_written_twice_names_no_function() {
    let operands = vec![Handed::Local(4)];
    let writes = vec![
        Write { local: 4, names: Some(named("one", 1)) },
        Write { local: 4, names: Some(named("two", 2)) },
    ];
    let intrinsic = Runs::Intrinsic(Intrinsic::Catch(operands, writes));
    let raw = calling(Callee::Found(found("core", "intrinsics::catch_unwind", intrinsic)));
    assert!(raw.calls.iter().all(|c| c.kind == EdgeKind::Unresolved));
    assert!(raw.calls.iter().all(|c| c.callee_display == "<caught function>"));
    assert!(raw.successors.is_empty());
}

fn validity(ty: Option<&str>, generic: bool, allowed: Option<bool>) -> Raw {
    let check = Validity { ty: ty.map(str::to_owned), generic, allowed };
    let runs = Runs::Intrinsic(Intrinsic::Validity(check));
    calling(Callee::Found(found("core", "intrinsics::assert_zero_valid", runs)))
}

#[test]
fn an_instantiation_a_type_forbids_aborts() {
    let raw = validity(Some("&u8"), false, Some(false));
    assert_eq!(raw.sites[0].termination, Termination::Abort);
    assert_eq!(
        raw.sites[0].reason,
        "instantiating &u8 this way is invalid, so the check aborts"
    );
    assert!(validity(Some("u8"), false, Some(true)).sites.is_empty());
    assert_eq!(validity(Some("u8"), false, None).calls[0].callee_display, "validity of u8");
    assert_eq!(validity(Some("T"), true, None).calls[0].kind, EdgeKind::Generic);
    assert_eq!(
        validity(None, false, None).calls[0].callee_display,
        "<validity of an unknown type>"
    );
}

fn abort_in(krate: &str, path: &str, scopes: Vec<Enclosing>) -> Raw {
    let within = Definition { krate: krate.to_owned(), path: path.to_owned() };
    let runs = Runs::Intrinsic(Intrinsic::Abort(within, 0, scopes));
    calling(Callee::Found(found("core", "intrinsics::abort", runs)))
}

#[test]
fn an_abort_counts_only_in_reference_counting() {
    let own = abort_in("alloc", "rc::Rc::clone", Vec::new());
    assert_eq!(own.sites[0].category, Category::RefCountOverflow);
    assert!(abort_in("std", "process::abort", Vec::new()).sites.is_empty());
    let scopes = vec![
        Enclosing { inlined: None, parent: Some(1) },
        Enclosing {
            inlined: Some(Definition { krate: "alloc".to_owned(), path: "sync::Arc::clone".to_owned() }),
            parent: None,
        },
    ];
    assert_eq!(abort_in("test", "go", scopes).sites.len(), 1, "the machinery is inlined there");
    let round = vec![Enclosing { inlined: None, parent: Some(0) }];
    assert!(abort_in("test", "go", round).sites.is_empty());
}

#[test]
fn a_drop_runs_the_glue_of_its_type() {
    let drop = |glue: Glue| {
        let mut function = one_call(Unwind::Continue);
        function.blocks[0].terminator =
            Some(Terminator::Drop(whole(0, word()), 1, None, Unwind::Continue));
        let program = program(function);
        let reach = reachable(&program, 0);
        let outlines = vec![ends(End::Drop(glue)), ends(End::Other)];
        scan(RELEASE, &program.functions[0], &reach, &outlines, &mut Seen::nothing())
    };
    let own = drop(Glue::Own(named("Vec<u8>", 2)));
    assert_eq!(own.calls[0].kind, EdgeKind::Drop);
    assert_eq!(own.calls[0].callee_display, "drop glue for Vec<u8>");
    assert_eq!(own.successors, vec![2]);
    assert!(drop(Glue::Nothing).calls.is_empty());
    assert_eq!(drop(Glue::Open("T".to_owned())).calls[0].kind, EdgeKind::Generic);
    assert_eq!(drop(Glue::Unsettled).calls[0].callee_display, "<unresolved drop>");
    let one = |needs_drop: bool| Impl {
        generic: false,
        needs_drop,
        target: Some(named("glue", 5)),
        self_ty: "Dog".to_owned(),
    };
    let object = drop(Glue::Object("dyn Speak".to_owned(), vec![one(false), one(true)]));
    assert_eq!(object.calls.len(), 2, "a type with nothing to drop is no candidate");
    assert!(object.calls[1].candidate);
    assert_eq!(object.calls[0].callee_display, "drop glue for dyn Speak");
    assert_eq!(object.calls[1].callee_display, "drop glue for Dog");
}

fn pointer(name: &str, points: Points, inner: Option<Shape>) -> Shape {
    Shape { name: name.to_owned(), points, inner: inner.map(Box::new) }
}

#[test]
fn notes_are_kept_once_and_in_order() {
    let program = program(one_call(Unwind::Continue));
    let reach = reachable(&program, 0);
    let plain = |name: &str| pointer(name, Points::Not, None);
    let unsized_from = |object: bool, before: bool, shape: Shape| Note::Unsized(object, before, shape);
    let reified = || Note::Reified(Some(named("callback", 6)), Some("fn()".to_owned()));
    let outline = Outline {
        notes: vec![
            reified(),
            reified(),
            Note::Reified(None, Some("fn()".to_owned())),
            unsized_from(true, false, pointer("&Wolf", Points::Plainly, Some(plain("Wolf")))),
            unsized_from(true, false, pointer("Box<Dog>", Points::Boxed, Some(plain("Dog")))),
            unsized_from(
                true,
                false,
                pointer(
                    "Pin<Box<Cat>>",
                    Points::Wrapped,
                    Some(pointer("Box<Cat>", Points::Boxed, Some(plain("Cat")))),
                ),
            ),
            unsized_from(true, false, pointer("Rc<Dog>", Points::Wrapped, Some(plain("Dog")))),
            unsized_from(true, true, pointer("&dyn A", Points::Plainly, Some(plain("dyn A")))),
            unsized_from(false, false, pointer("&[u8; 2]", Points::Plainly, Some(plain("[u8; 2]")))),
        ],
        end: End::Other,
        loc: None,
    };
    let mut seen = Seen::nothing();
    let outlines = vec![outline, ends(End::Other)];
    let raw = scan(RELEASE, &program.functions[0], &reach, &outlines, &mut seen);
    assert_eq!(raw.successors, vec![6]);
    assert_eq!(seen.reified.len(), 1);
    assert_eq!(seen.reified[0].sig, "fn()");
    assert_eq!(seen.coerced, vec!["Cat".to_owned(), "Dog".to_owned(), "Wolf".to_owned()]);
}

fn standing() -> Standing {
    Standing {
        testing: false,
        integration: false,
        defined_here: true,
        open: false,
        of_package: true,
        instantiated: true,
    }
}

fn subject(name: &str, body: Option<(usize, Vec<Outline>)>) -> Subject {
    Subject {
        key: FuncKey(name.to_owned()),
        display: name.to_owned(),
        krate: "test".to_owned(),
        loc: None,
        foreign: false,
        never_unwinds: false,
        standing: standing(),
        body,
    }
}

#[test]
fn a_function_is_reported_by_where_it_belongs() {
    assert!(standing().reported());
    assert!(!Standing { defined_here: false, ..standing() }.reported());
    let test = Standing { testing: true, ..standing() };
    assert!(test.reported(), "an instantiation of the library's own generic function");
    assert!(!Standing { integration: true, ..test }.reported());
    assert!(!Standing { open: true, ..test }.reported());
    assert!(!Standing { instantiated: false, ..test }.reported());
    assert!(!Standing { of_package: false, ..test }.reported());
    assert!(Standing { integration: true, defined_here: false, ..test }.reported());
}

#[test]
fn a_function_of_the_library_is_shown_as_the_library_shows_it() {
    let library = Some("known".to_owned());
    assert!(of_package(&library, "known") && !of_package(&None, "known"));
    assert_eq!(display_of(&library, "known", false, "known::a::<known::B>"), "a::<B>");
    assert_eq!(display_of(&library, "known", true, "known::a"), "known::a");
    assert_eq!(display_of(&library, "other", false, "known::a"), "known::a");
    assert_eq!(display_of(&None, "known", false, "known::a"), "known::a");
}

#[test]
fn an_open_key_tells_crates_and_arguments_apart() {
    let key = open_symbol("known", 0xab, "::parse", "parse::<T>");
    assert_eq!(key.0, "generic:known[00000000000000ab]::parse parse::<T>");
    assert!(key.is_open());
}

#[test]
fn a_position_counts_columns_from_one() {
    let loc = loc_of("src/lib.rs".to_owned(), 3, 0);
    assert_eq!((loc.file.as_str(), loc.line, loc.col), ("src/lib.rs", 3, 1));
}

#[test]
fn a_body_that_cannot_be_read_is_opaque() {
    let program = program(divide());
    let mut one = subject("extern_fn", None);
    one.foreign = true;
    let mut shim = subject("alloc_shim", None);
    shim.never_unwinds = true;
    let walk = Extractor::new(Vec::new())
        .expand(RELEASE, &program, &one)
        .expand(RELEASE, &program, &shim);
    let (bodies, _) = walk.finish();
    assert!(bodies[0].opaque && bodies[0].foreign && bodies[0].local);
    assert!(!bodies[1].opaque, "what never unwinds raises nothing");
}

#[test]
fn the_walk_expands_each_function_once() {
    let program = program(one_call(Unwind::Continue));
    let body = || {
        let callee = Callee::Found(found("test", "helper", Runs::Function));
        Some((0usize, vec![ends(End::Call(callee)), ends(End::Other)]))
    };
    let (walk, first) = Extractor::new(vec![0]).next();
    assert_eq!(first, Some(0));
    assert!(!walk.is_known("root"));
    let walk = walk.expand(RELEASE, &program, &subject("root", body()));
    assert!(walk.is_known("root"));
    let walk = walk.expand(RELEASE, &program, &subject("root", body()));
    let (walk, second) = walk.next();
    assert_eq!(second, Some(7));
    let (walk, third) = walk.next();
    assert_eq!(third, None, "the second visit queued nothing");
    let (bodies, _) = walk.finish();
    assert_eq!(bodies.len(), 1);
}

#[test]
fn a_cleanup_block_is_guarded_by_what_unwinds_into_it() {
    let mut function = one_call(Unwind::Cleanup(2));
    let mut clean = block(
        Vec::new(),
        Terminator::Drop(whole(0, word()), 3, None, Unwind::Terminate),
    );
    clean.cleanup = true;
    let mut last = block(Vec::new(), Terminator::Resume);
    last.cleanup = true;
    function.blocks.push(clean);
    function.blocks.push(last);
    let program = program(function);
    let outlines = vec![
        ends(End::Call(Callee::Found(found("test", "helper", Runs::Function)))),
        ends(End::Other),
        ends(End::Drop(Glue::Own(named("Guard", 4)))),
        ends(End::Other),
    ];
    let one = subject("root", Some((0, outlines)));
    let (bodies, _) = Extractor::new(Vec::new()).expand(RELEASE, &program, &one).finish();
    let calls = &bodies[0].calls;
    assert!(calls[0].guard.normal && calls[0].guard.origins.is_empty());
    assert!(!calls[1].guard.normal);
    assert_eq!(calls[1].guard.origins, vec![UnwindOrigin::Call(0)]);
    assert!(!calls[0].terminates, "unwinding runs the cleanup and goes on");
    assert!(calls[1].terminates, "a panic while unwinding aborts");
}

#[test]
fn operations_are_told_apart_by_name() {
    assert_eq!(operation_of("catch_unwind", false), Operation::Catch);
    assert_eq!(operation_of("abort", false), Operation::Abort);
    assert_eq!(operation_of("assert_inhabited", true), Operation::Validity);
    assert_eq!(operation_of("cold_path", false), Operation::Other);
}

/// What reading a body that ends its first block some way collects.
fn collect(build: Build, first: Terminator, end: End) -> Raw {
    let function = Function {
        locals: vec![Some(word())],
        params: 0,
        blocks: vec![block(Vec::new(), first), block(Vec::new(), Terminator::Return)],
        named: Vec::new(),
    };
    let program = program(function);
    let reach = reachable(&program, 0);
    scan(build, &program.functions[0], &reach, &vec![ends(end), ends(End::Other)], &mut Seen::nothing())
}

#[test]
fn a_tail_call_is_read_as_a_call() {
    let callee = || End::Call(Callee::Found(found("nightly", "index_at", Runs::Function)));
    let raw = collect(RELEASE, Terminator::TailCall(Vec::new()), callee());
    assert_eq!(raw.calls.len(), 1, "the call is an edge like any other");
    assert_eq!(raw.calls[0].kind, EdgeKind::Static);
    assert!(!raw.calls[0].terminates, "what it raises leaves the function");
    assert_eq!(raw.successors, vec![7]);
    let aborting = Build { unwinds: false, ..RELEASE };
    let raw = collect(aborting, Terminator::TailCall(Vec::new()), callee());
    assert!(raw.calls[0].terminates);
}

#[test]
fn assembly_that_may_unwind_is_foreign_code() {
    let unwinding = collect(RELEASE, Terminator::Assembly(vec![1], Unwind::Continue), End::Assembly(true));
    assert_eq!(unwinding.sites.len(), 1);
    assert_eq!(unwinding.sites[0].category, Category::Foreign, "assembly able to unwind is foreign code");
    assert!(!unwinding.sites[0].certain);
    let plain = collect(RELEASE, Terminator::Assembly(vec![1], Unwind::Unreachable), End::Assembly(false));
    assert!(plain.sites.is_empty(), "assembly that cannot unwind raises nothing");
}

#[test]
fn an_unwrap_is_named_by_the_error_it_discards() {
    let raised = |path: &str, error: Option<(&str, &str)>| {
        let mut target = found("core", path, Runs::Function);
        target.discards =
            error.map(|(krate, path)| Definition { krate: krate.to_owned(), path: path.to_owned() });
        let program = program(one_call(Unwind::Continue));
        let reach = reachable(&program, 0);
        let outlines = vec![ends(End::Call(Callee::Found(target))), ends(End::Other)];
        scan(RELEASE, &program.functions[0], &reach, &outlines, &mut Seen::nothing()).sites[0].category
    };
    assert_eq!(raised("result::unwrap_failed", None), Category::Unwrap);
    assert_eq!(
        raised("result::unwrap_failed", Some(("std", "sync::poison::PoisonError"))),
        Category::Poison,
        "a poisoned lock is its own category"
    );
    assert_eq!(raised("result::unwrap_failed", Some(("core", "fmt::Error"))), Category::Fmt);
    assert_eq!(raised("result::unwrap_failed", Some(("std", "io::Error"))), Category::Unwrap);
    assert_eq!(raised("option::unwrap_failed", Some(("core", "fmt::Error"))), Category::Unwrap);
}
