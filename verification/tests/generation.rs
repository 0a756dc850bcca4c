use stackc::ast::{Const, Definition, Operation, Proc, Type};
use stackc::codegen::{CompileError, Compiler, ErrorKind};
use stackc::ir::{BinOp, Block, Inst, TargetModule, Terminator, Value};
use stackc::parser::parser;

fn words(source: &str) -> Vec<String> {
    source.split_whitespace().map(|s| s.to_string()).collect()
}

fn compile(source: &str) -> Result<TargetModule, CompileError> {
    let defs = parser(&words(source)).unwrap();
    let mut compiler = Compiler::new(&defs);
    compiler.compile()?;
    Ok(compiler.into_module())
}

fn failure(source: &str) -> (ErrorKind, String, usize) {
    let error = compile(source).unwrap_err();
    (error.kind, error.definition, error.index)
}

fn reg(block: usize, inst: usize) -> Value {
    Value::Reg { block, inst, slot: 0 }
}

#[test]
fn new_compiler_holds_print_only() {
    let defs = Vec::new();
    let compiler = Compiler::new(&defs);
    let module = compiler.module();
    assert_eq!(module.functions.len(), 1);
    assert_eq!(module.functions[0].name, "print");
    assert_eq!(module.functions[0].params, vec![Type::Int]);
    assert!(module.functions[0].results.is_empty());
    assert!(module.functions[0].blocks.is_empty());
    assert!(compiler.stack().is_empty());
    assert_eq!(compiler.current_block(), 0);
    assert_eq!(
        compiler.function().blocks,
        vec![Block { insts: vec![], term: Terminator::Open }]
    );
}

#[test]
fn sum_of_two_literals() {
    let module = compile("proc main in 3 4 + end").unwrap();
    assert_eq!(module.functions.len(), 2);
    let main = &module.functions[1];
    assert_eq!(main.name, "main");
    assert!(main.params.is_empty());
    assert_eq!(main.results, vec![Type::Int]);
    assert_eq!(
        main.blocks,
        vec![Block {
            insts: vec![Inst::Binary {
                op: BinOp::Add,
                lhs: Value::Const(3),
                rhs: Value::Const(4)
            }],
            term: Terminator::Return(vec![reg(0, 0)]),
        }]
    );
}

#[test]
fn operands_keep_their_order() {
    let module = compile("proc main int int in - end").unwrap();
    assert_eq!(
        module.functions[1].blocks[0].insts,
        vec![Inst::Binary { op: BinOp::Sub, lhs: Value::Param(0), rhs: Value::Param(1) }]
    );
    let module = compile("proc main int int in swap idivmod swap drop end").unwrap();
    assert_eq!(
        module.functions[1].blocks[0].insts,
        vec![
            Inst::Binary { op: BinOp::SDiv, lhs: Value::Param(1), rhs: Value::Param(0) },
            Inst::Binary { op: BinOp::SRem, lhs: Value::Param(1), rhs: Value::Param(0) },
        ]
    );
    assert_eq!(module.functions[1].blocks[0].term, Terminator::Return(vec![reg(0, 1)]));
}

#[test]
fn print_calls_the_external_function() {
    let module = compile("proc main in 5 print end").unwrap();
    let main = &module.functions[1];
    assert_eq!(main.blocks[0].insts, vec![Inst::Call { callee: 0, args: vec![Value::Const(5)] }]);
    assert_eq!(main.blocks[0].term, Terminator::Return(vec![]));
    assert!(main.results.is_empty());
}

#[test]
fn procedures_are_compiled_on_first_reference_and_once() {
    let module = compile(
        "proc main in two two + end proc unused in 1 end proc two in one one + end proc one in 1 end",
    )
    .unwrap();
    let names: Vec<&str> = module.functions.iter().map(|f| f.name.as_str()).collect();
    assert_eq!(names, vec!["print", "one", "two", "main", "unused"]);
    let main = &module.functions[3];
    assert_eq!(
        main.blocks[0].insts,
        vec![
            Inst::Call { callee: 2, args: vec![] },
            Inst::Call { callee: 2, args: vec![] },
            Inst::Binary { op: BinOp::Add, lhs: reg(0, 0), rhs: reg(0, 1) },
        ]
    );
    let mut output = Vec::new();
    assert_eq!(module.run(3, &vec![], &mut output), Ok(vec![4]));
}

#[test]
fn call_unpacks_several_results_in_order() {
    let module = compile("proc pair in 1 2 end proc main in pair - end").unwrap();
    let main = &module.functions[2];
    assert_eq!(
        main.blocks[0].insts,
        vec![
            Inst::Call { callee: 1, args: vec![] },
            Inst::Binary {
                op: BinOp::Sub,
                lhs: Value::Reg { block: 0, inst: 0, slot: 0 },
                rhs: Value::Reg { block: 0, inst: 0, slot: 1 },
            },
        ]
    );
    let mut output = Vec::new();
    assert_eq!(module.run(2, &vec![], &mut output), Ok(vec![u64::MAX]));
}

#[test]
fn a_compiled_function_wins_over_a_constant_of_its_name() {
    let defs = vec![
        Definition::Proc(Proc {
            name: "x".to_string(),
            ops: vec![Operation::Integer(1)],
            inputs: vec![],
            outputs: vec![],
        }),
        Definition::Const(Const { name: "x".to_string(), ops: vec![Operation::Integer(2)] }),
    ];
    let mut compiler = Compiler::new(&defs);
    compiler.compile_ops(&vec![Operation::Word("x".to_string())]).unwrap();
    assert_eq!(compiler.stack(), &vec![Value::Const(2)]);
    if let Definition::Proc(p) = &defs[0] {
        compiler.compile_proc(p).unwrap();
    }
    compiler.compile_ops(&vec![Operation::Word("x".to_string())]).unwrap();
    assert_eq!(compiler.stack(), &vec![Value::Const(2), reg(0, 0)]);
}

#[test]
fn compiling_a_procedure_twice_changes_nothing() {
    let defs = Vec::new();
    let mut compiler = Compiler::new(&defs);
    let first = Proc {
        name: "f".to_string(),
        ops: vec![Operation::Integer(1)],
        inputs: vec![],
        outputs: vec![],
    };
    let second = Proc {
        name: "f".to_string(),
        ops: vec![Operation::Integer(2)],
        inputs: vec![],
        outputs: vec![],
    };
    compiler.compile_proc(&first).unwrap();
    compiler.compile_proc(&second).unwrap();
    assert_eq!(compiler.module().functions.len(), 2);
    assert_eq!(
        compiler.module().functions[1].blocks[0].term,
        Terminator::Return(vec![Value::Const(1)])
    );
}

#[test]
fn every_procedure_gets_a_function() {
    let module = compile("proc a in 1 end proc b in a end").unwrap();
    let names: Vec<&str> = module.functions.iter().map(|f| f.name.as_str()).collect();
    assert_eq!(names, vec!["print", "a", "b"]);
    let module = compile("proc helper in end proc main in end").unwrap();
    let names: Vec<&str> = module.functions.iter().map(|f| f.name.as_str()).collect();
    assert_eq!(names, vec!["print", "helper", "main"]);
    let module = compile("const C 1 end proc z in y C end proc y in x end proc x in C end").unwrap();
    let names: Vec<&str> = module.functions.iter().map(|f| f.name.as_str()).collect();
    assert_eq!(names, vec!["print", "x", "y", "z"]);
    let mut output = Vec::new();
    assert_eq!(module.run(3, &vec![], &mut output), Ok(vec![1, 1]));
}

#[test]
fn later_procedure_of_a_name_is_passed_over() {
    let mut defs = parser(&words("proc f in 1 end proc f in 2 end")).unwrap();
    defs.push(Definition::Proc(Proc {
        name: "print".to_string(),
        ops: vec![Operation::Integer(3)],
        inputs: vec![],
        outputs: vec![],
    }));
    let mut compiler = Compiler::new(&defs);
    compiler.compile().unwrap();
    let module = compiler.into_module();
    let names: Vec<&str> = module.functions.iter().map(|f| f.name.as_str()).collect();
    assert_eq!(names, vec!["print", "f"]);
    let mut output = Vec::new();
    assert_eq!(module.run(1, &vec![], &mut output), Ok(vec![1]));
    assert!(module.functions[0].blocks.is_empty());
}

#[test]
fn failure_in_a_procedure_that_nothing_refers_to_fails_the_program() {
    assert_eq!(
        failure("proc main in 1 end proc unused in + end"),
        (ErrorKind::StackUnderflow, "unused".to_string(), 0)
    );
}

#[test]
fn conditional_builds_three_blocks() {
    let module = compile("proc main int in dup if 7 print end end").unwrap();
    let main = &module.functions[1];
    assert_eq!(
        main.blocks,
        vec![
            Block {
                insts: vec![],
                term: Terminator::Branch { cond: Value::Param(0), then_block: 1, else_block: 2 },
            },
            Block {
                insts: vec![Inst::Call { callee: 0, args: vec![Value::Const(7)] }],
                term: Terminator::Jump(3),
            },
            Block { insts: vec![], term: Terminator::Jump(3) },
            Block { insts: vec![], term: Terminator::Return(vec![Value::Param(0)]) },
        ]
    );
}

#[test]
fn nested_conditionals_branch_forward() {
    let module =
        compile("proc main int int in dup if swap dup if 1 print end swap end drop drop end")
            .unwrap();
    let main = &module.functions[1];
    assert_eq!(main.blocks.len(), 7);
    for (b, block) in main.blocks.iter().enumerate() {
        match &block.term {
            Terminator::Jump(t) => assert!(*t > b),
            Terminator::Branch { then_block, else_block, .. } => {
                assert!(*then_block > b && *else_block > b)
            }
            Terminator::Return(_) => assert_eq!(b, 6),
            Terminator::Open => panic!("an open block"),
        }
    }
    let mut output = Vec::new();
    module.run(1, &vec![5, 6], &mut output).unwrap();
    assert_eq!(output, vec![1]);
    let mut output = Vec::new();
    module.run(1, &vec![0, 6], &mut output).unwrap();
    assert_eq!(output, vec![]);
    let mut output = Vec::new();
    module.run(1, &vec![5, 0], &mut output).unwrap();
    assert_eq!(output, vec![]);
}

#[test]
fn stack_underflow_is_reported() {
    for (source, index) in [
        ("proc main in + end", 0),
        ("proc main in 1 - end", 1),
        ("proc main in 1 * end", 1),
        ("proc main in 1 divmod end", 1),
        ("proc main in 1 idivmod end", 1),
        ("proc main in 1 = end", 1),
        ("proc main in drop end", 0),
        ("proc main in dup end", 0),
        ("proc main in 1 swap end", 1),
        ("proc main in print end", 0),
        ("proc main in if end end", 0),
        ("proc f int int in + end proc main in 1 f end", 1),
    ] {
        assert_eq!(
            failure(source),
            (ErrorKind::StackUnderflow, "main".to_string(), index),
            "{}",
            source
        );
    }
}

#[test]
fn failure_names_the_innermost_definition() {
    assert_eq!(
        failure("const C 1 + + end proc main in 2 C end"),
        (ErrorKind::StackUnderflow, "C".to_string(), 2)
    );
    assert_eq!(
        failure("proc f in 1 2 drop drop drop end proc main in 2 f end"),
        (ErrorKind::StackUnderflow, "f".to_string(), 4)
    );
    assert_eq!(
        failure("proc main in 1 if 2 3 nothing end end"),
        (ErrorKind::UnresolvedReference("nothing".to_string()), "main".to_string(), 2)
    );
}

#[test]
fn recursion_is_reported() {
    assert_eq!(
        failure("proc main in main end"),
        (ErrorKind::RecursiveDefinition("main".to_string()), "main".to_string(), 0)
    );
    assert_eq!(
        failure("proc a in 1 b end proc b in a end proc main in a end"),
        (ErrorKind::RecursiveDefinition("a".to_string()), "b".to_string(), 0)
    );
    assert_eq!(
        failure("const A B end const B 1 A end proc main in A end"),
        (ErrorKind::RecursiveDefinition("A".to_string()), "B".to_string(), 1)
    );
}

#[test]
fn constant_may_be_used_again_after_it_was_inlined() {
    let module = compile("const ONE 1 end proc main in ONE ONE + end").unwrap();
    let mut output = Vec::new();
    assert_eq!(module.run(1, &vec![], &mut output), Ok(vec![2]));
}

#[test]
fn declared_outputs_must_match() {
    assert_eq!(
        failure("proc f -- int in 1 2 end proc main in f end"),
        (ErrorKind::MalformedReturn, "f".to_string(), 2)
    );
    assert_eq!(
        failure("proc main -- int int in 1 end"),
        (ErrorKind::MalformedReturn, "main".to_string(), 1)
    );
    assert_eq!(
        failure("proc main -- int in end"),
        (ErrorKind::MalformedReturn, "main".to_string(), 0)
    );
    assert!(compile("proc main -- int int in 1 2 end").is_ok());
}

#[test]
fn unbalanced_conditional_is_reported() {
    assert_eq!(
        failure("proc main int in dup if 1 + end end"),
        (ErrorKind::UnbalancedBranch, "main".to_string(), 1)
    );
    assert_eq!(
        failure("proc main int in dup if drop end end"),
        (ErrorKind::UnbalancedBranch, "main".to_string(), 1)
    );
}

#[test]
fn failure_restores_the_module() {
    let defs = parser(&words("proc ok in 1 end proc bad in ok + end proc main in ok bad end"))
        .unwrap();
    let mut compiler = Compiler::new(&defs);
    let error = compiler.compile().unwrap_err();
    assert_eq!(error.kind, ErrorKind::StackUnderflow);
    assert_eq!(error.definition, "bad");
    assert_eq!(compiler.module().functions.len(), 1);
    assert!(compiler.stack().is_empty());
    assert_eq!(compiler.function().blocks.len(), 1);
}

#[test]
fn failed_operations_change_nothing() {
    let defs = parser(&words("proc one in 1 end")).unwrap();
    let mut compiler = Compiler::new(&defs);
    compiler.compile_ops(&vec![Operation::Integer(7), Operation::Dup, Operation::Add]).unwrap();
    let stack = compiler.stack().clone();
    let blocks = vec![Block {
        insts: vec![Inst::Binary { op: BinOp::Add, lhs: Value::Const(7), rhs: Value::Const(7) }],
        term: Terminator::Open,
    }];
    assert_eq!(compiler.function().blocks, blocks);
    let failing = vec![
        vec![Operation::Word("one".to_string()), Operation::Drop, Operation::Drop, Operation::Drop],
        vec![Operation::Dup, Operation::Mul, Operation::Print, Operation::Print],
        vec![Operation::Dup, Operation::If(vec![Operation::Dup, Operation::Add])],
        vec![
            Operation::Dup,
            Operation::If(vec![Operation::Dup, Operation::Print]),
            Operation::Dup,
            Operation::If(vec![Operation::Word("one".to_string()), Operation::Word("two".to_string())]),
        ],
    ];
    let kinds = [
        ErrorKind::StackUnderflow,
        ErrorKind::StackUnderflow,
        ErrorKind::UnbalancedBranch,
        ErrorKind::UnresolvedReference("two".to_string()),
    ];
    for (ops, kind) in failing.iter().zip(kinds) {
        let error = compiler.compile_ops(ops).unwrap_err();
        assert_eq!(error.kind, kind);
        assert_eq!(error.definition, "");
        assert_eq!(compiler.module().functions.len(), 1);
        assert_eq!(compiler.stack(), &stack);
        assert_eq!(compiler.function().blocks, blocks);
        assert_eq!(compiler.current_block(), 0);
    }
    compiler.compile_ops(&vec![Operation::Word("one".to_string()), Operation::Add]).unwrap();
    assert_eq!(compiler.module().functions.len(), 2);
    assert_eq!(compiler.stack().len(), 1);
}
