use stackc::ast::{Definition, Operation, Proc, Type};
use stackc::codegen::{Compiler, ErrorKind};
use stackc::ir::{BinOp, Inst, TargetModule, Value};

fn proc(name: &str, inputs: usize, outputs: usize, ops: Vec<Operation>) -> Proc {
    Proc {
        name: name.to_string(),
        ops,
        inputs: vec![Type::Int; inputs],
        outputs: vec![Type::Int; outputs],
    }
}

fn build(p: Proc) -> TargetModule {
    let defs = Vec::new();
    let mut compiler = Compiler::new(&defs);
    compiler.compile_proc(&p).unwrap();
    compiler.into_module()
}

fn run(module: &TargetModule, args: &[u64]) -> Vec<u64> {
    let mut output = Vec::new();
    let values = module.run(module.functions.len() - 1, &args.to_vec(), &mut output).unwrap();
    assert!(output.is_empty());
    values
}

#[test]
fn literal_body_returns_the_literal() {
    for n in [0, 1, 42, u64::MAX] {
        let module = build(proc("lit", 0, 0, vec![Operation::Integer(n)]));
        assert_eq!(run(&module, &[]), vec![n]);
        let module = build(proc("lit", 0, 1, vec![Operation::Integer(n)]));
        assert_eq!(run(&module, &[]), vec![n]);
    }
}

#[test]
fn dup_add_doubles_with_wrapping() {
    let module = build(proc("double", 1, 1, vec![Operation::Dup, Operation::Add]));
    assert_eq!(run(&module, &[21]), vec![42]);
    assert_eq!(run(&module, &[0]), vec![0]);
    assert_eq!(run(&module, &[1 << 63]), vec![0]);
    assert_eq!(run(&module, &[u64::MAX]), vec![u64::MAX - 1]);
}

#[test]
fn divmod_is_unsigned() {
    let module = build(proc("dm", 2, 2, vec![Operation::DivMod]));
    assert_eq!(run(&module, &[10, 3]), vec![3, 1]);
    assert_eq!(run(&module, &[3, 10]), vec![0, 3]);
    let minus_seven = (-7i64) as u64;
    assert_eq!(run(&module, &[minus_seven, 2]), vec![minus_seven / 2, 1]);
    for (x, y) in [(10u64, 3u64), (u64::MAX, 7), (0, 5), (minus_seven, 2)] {
        let r = run(&module, &[x, y]);
        assert_eq!(r[0] * y + r[1], x);
    }
}

#[test]
fn idivmod_is_signed_and_rounds_towards_zero() {
    let module = build(proc("idm", 2, 2, vec![Operation::IDivMod]));
    let cases: [(i64, i64, i64, i64); 6] = [
        (10, 3, 3, 1),
        (-7, 2, -3, -1),
        (7, -2, -3, 1),
        (-7, -2, 3, -1),
        (i64::MIN, 2, i64::MIN / 2, 0),
        (i64::MIN, i64::MIN, 1, 0),
    ];
    for (x, y, q, r) in cases {
        let got = run(&module, &[x as u64, y as u64]);
        assert_eq!(got, vec![q as u64, r as u64]);
        assert_eq!((got[0] as i64).wrapping_mul(y).wrapping_add(got[1] as i64), x);
    }
}

#[test]
fn swap_twice_changes_nothing() {
    let defs = Vec::new();
    let mut compiler = Compiler::new(&defs);
    compiler
        .compile_ops(&vec![Operation::Integer(1), Operation::Integer(2), Operation::Integer(3)])
        .unwrap();
    let before = compiler.stack().clone();
    compiler.compile_ops(&vec![Operation::Swap]).unwrap();
    assert_eq!(compiler.stack(), &vec![Value::Const(1), Value::Const(3), Value::Const(2)]);
    compiler.compile_ops(&vec![Operation::Swap]).unwrap();
    assert_eq!(compiler.stack(), &before);
    assert!(compiler.function().blocks[0].insts.is_empty());
}

#[test]
fn undefined_word_leaves_no_function_behind() {
    let defs = vec![Definition::Proc(proc("helper", 0, 0, vec![Operation::Integer(1)]))];
    let mut compiler = Compiler::new(&defs);
    let outer = proc(
        "outer",
        0,
        0,
        vec![Operation::Word("helper".to_string()), Operation::Word("missing".to_string())],
    );
    let error = compiler.compile_proc(&outer).unwrap_err();
    assert_eq!(error.kind, ErrorKind::UnresolvedReference("missing".to_string()));
    assert_eq!(error.definition, "outer");
    assert_eq!(error.index, 1);
    assert_eq!(compiler.module().functions.len(), 1);
    assert!(compiler.module().get_function(&"outer".to_string()).is_none());
    assert!(compiler.module().get_function(&"helper".to_string()).is_none());
}

#[test]
fn call_takes_two_and_leaves_one() {
    let defs = vec![Definition::Proc(proc("sub2", 2, 1, vec![Operation::Sub]))];
    let mut compiler = Compiler::new(&defs);
    compiler
        .compile_ops(&vec![Operation::Integer(7), Operation::Integer(10), Operation::Integer(3)])
        .unwrap();
    compiler.compile_ops(&vec![Operation::Word("sub2".to_string())]).unwrap();
    assert_eq!(
        compiler.stack(),
        &vec![Value::Const(7), Value::Reg { block: 0, inst: 0, slot: 0 }]
    );
    assert_eq!(
        compiler.function().blocks[0].insts,
        vec![Inst::Call { callee: 1, args: vec![Value::Const(10), Value::Const(3)] }]
    );
    let sub2 = &compiler.module().functions[1];
    assert_eq!(
        sub2.blocks[0].insts,
        vec![Inst::Binary { op: BinOp::Sub, lhs: Value::Param(0), rhs: Value::Param(1) }]
    );
}

#[test]
fn constant_reference_compiles_as_its_operations() {
    let with_constant = vec![
        Definition::Const(stackc::ast::Const {
            name: "K".to_string(),
            ops: vec![Operation::Integer(2), Operation::Integer(3), Operation::Add],
        }),
        Definition::Proc(proc(
            "main",
            1,
            1,
            vec![
                Operation::Dup,
                Operation::Word("K".to_string()),
                Operation::Mul,
                Operation::Word("K".to_string()),
                Operation::Sub,
                Operation::Add,
            ],
        )),
    ];
    let written_out = vec![Definition::Proc(proc(
        "main",
        1,
        1,
        vec![
            Operation::Dup,
            Operation::Integer(2),
            Operation::Integer(3),
            Operation::Add,
            Operation::Mul,
            Operation::Integer(2),
            Operation::Integer(3),
            Operation::Add,
            Operation::Sub,
            Operation::Add,
        ],
    ))];
    let mut first = Compiler::new(&with_constant);
    first.compile().unwrap();
    let mut second = Compiler::new(&written_out);
    second.compile().unwrap();
    assert_eq!(first.module(), second.module());
    let main = &first.module().functions[1];
    assert!(main.blocks[0].insts.iter().all(|inst| matches!(inst, Inst::Binary { .. })));
    assert_eq!(run(first.module(), &[4]), vec![4 + (4 * 5 - 5)]);
}

#[test]
fn function_keeps_the_declared_signature() {
    let module = build(proc("f", 2, 1, vec![Operation::Add]));
    assert_eq!(module.functions[1].name, "f");
    assert_eq!(module.functions[1].params, vec![Type::Int, Type::Int]);
    assert_eq!(module.functions[1].results, vec![Type::Int]);
    let module = build(proc("g", 1, 0, vec![Operation::Dup, Operation::Dup]));
    assert_eq!(module.functions[1].params, vec![Type::Int]);
    assert_eq!(module.functions[1].results, vec![Type::Int, Type::Int, Type::Int]);
    assert_eq!(run(&module, &[8]), vec![8, 8, 8]);
}

#[test]
fn compiled_functions_do_what_their_procedures_mean() {
    let source = "const TEN 10 end \
        proc sq int -- int in dup * end \
        proc both int int in dup print swap dup print + end \
        proc main int in dup sq swap TEN both swap divmod end";
    let texts = stackc::lexer::tokenize(source).unwrap();
    let defs = stackc::parser::parser(&texts).unwrap();
    let mut compiler = Compiler::new(&defs);
    compiler.compile().unwrap();
    let module = compiler.into_module();
    let names: Vec<&str> = module.functions.iter().map(|f| f.name.as_str()).collect();
    assert_eq!(names, vec!["print", "sq", "both", "main"]);
    for x in [0u64, 1, 7, 1 << 40] {
        let mut output = Vec::new();
        let sum = x.wrapping_add(10);
        let square = x.wrapping_mul(x);
        let result = module.run(3, &vec![x], &mut output);
        if square == 0 {
            assert_eq!(result, Err(stackc::interp::RunError::Fault));
        } else {
            assert_eq!(result, Ok(vec![sum / square, sum % square]));
        }
        assert_eq!(output, vec![10, x]);
    }
}

#[test]
fn constant_that_fails_fails_as_its_operations_do() {
    let constant = stackc::ast::Const { name: "bad".to_string(), ops: vec![Operation::Add] };
    let with_constant = vec![
        Definition::Const(constant),
        Definition::Proc(proc(
            "main",
            0,
            0,
            vec![Operation::Integer(1), Operation::Word("bad".to_string())],
        )),
    ];
    let written_out =
        vec![Definition::Proc(proc("main", 0, 0, vec![Operation::Integer(1), Operation::Add]))];
    let mut first = Compiler::new(&with_constant);
    let at_reference = first.compile().unwrap_err();
    let mut second = Compiler::new(&written_out);
    let in_place = second.compile().unwrap_err();
    assert_eq!(at_reference.kind, ErrorKind::StackUnderflow);
    assert_eq!(in_place.kind, ErrorKind::StackUnderflow);
    assert_eq!(at_reference.definition, "bad");
    assert_eq!(at_reference.index, 0);
    assert_eq!(in_place.definition, "main");
    assert_eq!(in_place.index, 1);
    assert_eq!(first.module(), second.module());
}

#[test]
fn constant_of_arithmetic_adds_no_call_and_no_function() {
    let defs = vec![
        Definition::Const(stackc::ast::Const {
            name: "inner".to_string(),
            ops: vec![Operation::Integer(2), Operation::Mul],
        }),
        Definition::Const(stackc::ast::Const {
            name: "outer".to_string(),
            ops: vec![
                Operation::Integer(3),
                Operation::Word("inner".to_string()),
                Operation::Dup,
                Operation::If(vec![Operation::Dup, Operation::Word("inner".to_string()), Operation::Drop]),
            ],
        }),
    ];
    let mut compiler = Compiler::new(&defs);
    compiler.compile_ops(&vec![Operation::Word("outer".to_string())]).unwrap();
    assert_eq!(compiler.module().functions.len(), 1);
    let function = compiler.function();
    assert_eq!(function.blocks.len(), 4);
    for block in &function.blocks {
        assert!(block.insts.iter().all(|inst| matches!(inst, Inst::Binary { .. })));
    }
    assert_eq!(function.blocks[0].insts.len(), 1);
    assert_eq!(function.blocks[1].insts.len(), 1);
}

#[test]
fn reference_to_a_compiled_procedure_and_to_one_yet_to_compile_agree() {
    let defs = vec![Definition::Proc(proc("sub2", 2, 1, vec![Operation::Sub]))];
    let pushes = vec![Operation::Integer(7), Operation::Integer(10), Operation::Integer(3)];
    let reference = vec![Operation::Word("sub2".to_string())];

    let mut fresh = Compiler::new(&defs);
    fresh.compile_ops(&pushes).unwrap();
    fresh.compile_ops(&reference).unwrap();

    let mut compiled = Compiler::new(&defs);
    compiled.compile().unwrap();
    assert_eq!(compiled.module().functions.len(), 2);
    compiled.compile_ops(&pushes).unwrap();
    compiled.compile_ops(&reference).unwrap();

    assert_eq!(compiled.module().functions.len(), 2);
    assert_eq!(fresh.module(), compiled.module());
    assert_eq!(fresh.stack(), compiled.stack());
    assert_eq!(fresh.stack().len(), 2);
    assert_eq!(fresh.function(), compiled.function());
    assert_eq!(
        compiled.function().blocks[0].insts,
        vec![Inst::Call { callee: 1, args: vec![Value::Const(10), Value::Const(3)] }]
    );
}

#[test]
fn constant_that_calls_fails_as_its_operations_do() {
    let defs = vec![
        Definition::Const(stackc::ast::Const {
            name: "K".to_string(),
            ops: vec![Operation::Integer(1), Operation::Word("both".to_string())],
        }),
        Definition::Const(stackc::ast::Const {
            name: "again".to_string(),
            ops: vec![Operation::Integer(1), Operation::Word("again".to_string())],
        }),
        Definition::Proc(proc("both", 2, 1, vec![Operation::Add])),
    ];
    // One value is there where the procedure takes two.
    let mut first = Compiler::new(&defs);
    let at_reference = first.compile_ops(&vec![Operation::Word("K".to_string())]).unwrap_err();
    let mut second = Compiler::new(&defs);
    let in_place = second
        .compile_ops(&vec![Operation::Integer(1), Operation::Word("both".to_string())])
        .unwrap_err();
    assert_eq!(at_reference.kind, ErrorKind::StackUnderflow);
    assert_eq!(in_place.kind, ErrorKind::StackUnderflow);
    assert_eq!(first.module(), second.module());
    assert_eq!(first.module().functions.len(), 1);
    // With one more value both compile, and to the same.
    first.compile_ops(&vec![Operation::Integer(5), Operation::Word("K".to_string())]).unwrap();
    second
        .compile_ops(&vec![
            Operation::Integer(5),
            Operation::Integer(1),
            Operation::Word("both".to_string()),
        ])
        .unwrap();
    assert_eq!(first.module(), second.module());
    assert_eq!(first.function(), second.function());
    assert_eq!(first.stack(), second.stack());
    // A constant that refers to itself fails, and so do its operations in
    // its place.
    let at_reference = first.compile_ops(&vec![Operation::Word("again".to_string())]).unwrap_err();
    let in_place = second
        .compile_ops(&vec![Operation::Integer(1), Operation::Word("again".to_string())])
        .unwrap_err();
    assert_eq!(at_reference.kind, ErrorKind::RecursiveDefinition("again".to_string()));
    assert_eq!(in_place.kind, ErrorKind::RecursiveDefinition("again".to_string()));
    assert_eq!(first.function(), second.function());
}

#[test]
fn undefined_word_deep_in_a_body_fails_with_that_word() {
    let defs = vec![
        Definition::Proc(proc("helper", 1, 1, vec![Operation::Dup, Operation::Add])),
        Definition::Proc(proc(
            "main",
            0,
            0,
            vec![
                Operation::Integer(1),
                Operation::Word("helper".to_string()),
                Operation::If(vec![
                    Operation::Integer(2),
                    Operation::Drop,
                    Operation::Word("nowhere".to_string()),
                    Operation::Print,
                ]),
            ],
        )),
    ];
    let mut compiler = Compiler::new(&defs);
    let main = match &defs[1] {
        Definition::Proc(p) => p,
        Definition::Const(_) => unreachable!(),
    };
    let error = compiler.compile_proc(main).unwrap_err();
    assert_eq!(error.kind, ErrorKind::UnresolvedReference("nowhere".to_string()));
    assert_eq!(error.definition, "main");
    assert_eq!(error.index, 2);
    assert_eq!(compiler.module().functions.len(), 1);
    assert!(compiler.module().get_function(&"main".to_string()).is_none());
    assert!(compiler.module().get_function(&"helper".to_string()).is_none());
    // At the top of a body it is named with its place.
    let mut compiler = Compiler::new(&defs);
    let error = compiler
        .compile_ops(&vec![
            Operation::Integer(1),
            Operation::Word("helper".to_string()),
            Operation::Word("nowhere".to_string()),
            Operation::Add,
        ])
        .unwrap_err();
    assert_eq!(error.kind, ErrorKind::UnresolvedReference("nowhere".to_string()));
    assert_eq!(error.index, 2);
    assert_eq!(compiler.module().functions.len(), 1);
    assert!(compiler.stack().is_empty());
}
