use stackc::ast::{Const, Definition, Operation, Proc, Type};
use stackc::codegen::{CompileError, Compiler, ErrorKind};
use stackc::ir::{Inst, TargetModule, Value};
use stackc::lexer::Token;
use stackc::parser::{parser, Expected};

fn words(source: &str) -> Vec<String> {
    source.split_whitespace().map(|s| s.to_string()).collect()
}

fn compile(source: &str) -> Result<TargetModule, CompileError> {
    let defs = parser(&words(source)).unwrap();
    let mut compiler = Compiler::new(&defs);
    compiler.compile()?;
    Ok(compiler.into_module())
}

fn run_main(module: &TargetModule, args: &[u64]) -> (Vec<u64>, Vec<u64>) {
    let main = module.get_function(&"main".to_string()).unwrap();
    let mut output = Vec::new();
    let values = module.run(main, &args.to_vec(), &mut output).unwrap();
    (values, output)
}

#[test]
fn main_returns_seven() {
    let module = compile("proc main in 3 4 + end").unwrap();
    assert_eq!(run_main(&module, &[]), (vec![7], vec![]));
}

#[test]
fn main_returns_quotient_and_remainder() {
    let module = compile("proc main in 10 3 divmod end").unwrap();
    let main = &module.functions[module.get_function(&"main".to_string()).unwrap()];
    assert_eq!(main.results, vec![Type::Int, Type::Int]);
    assert_eq!(run_main(&module, &[]), (vec![3, 1], vec![]));
}

#[test]
fn constant_is_inlined_into_main() {
    let module = compile("const FIVE 5 end proc main in FIVE dup + end").unwrap();
    assert_eq!(module.functions.len(), 2);
    assert!(module.get_function(&"FIVE".to_string()).is_none());
    let main = &module.functions[1];
    assert!(main.blocks[0].insts.iter().all(|inst| matches!(inst, Inst::Binary { .. })));
    assert_eq!(run_main(&module, &[]), (vec![10], vec![]));
}

#[test]
fn constant_takes_no_in() {
    let errors = parser(&words("const FIVE in 5 end proc main in FIVE dup + end")).unwrap_err();
    assert_eq!(errors.len(), 1);
    assert_eq!(errors[0].position, 2);
    assert_eq!(errors[0].found, Some(Token::In));
    assert_eq!(errors[0].expected, Expected::Operation);
}

#[test]
fn main_calls_double_once() {
    let module = compile("proc double int -- int in dup + end proc main in 21 double end").unwrap();
    assert_eq!(module.functions.len(), 3);
    assert_eq!(module.functions[1].name, "double");
    assert_eq!(module.functions[2].name, "main");
    let main = &module.functions[2];
    assert_eq!(main.blocks.len(), 1);
    assert_eq!(main.blocks[0].insts, vec![Inst::Call { callee: 1, args: vec![Value::Const(21)] }]);
    assert_eq!(run_main(&module, &[]), (vec![42], vec![]));
}

#[test]
fn undefined_word_fails_generation() {
    let defs = parser(&words("proc main in foo end")).unwrap();
    let mut compiler = Compiler::new(&defs);
    let error = compiler.compile().unwrap_err();
    assert_eq!(
        error,
        CompileError {
            kind: ErrorKind::UnresolvedReference("foo".to_string()),
            definition: "main".to_string(),
            index: 0,
        }
    );
    assert!(compiler.module().get_function(&"main".to_string()).is_none());
    assert_eq!(compiler.module().functions.len(), 1);
}

#[test]
fn conditional_that_pushes_is_unbalanced() {
    let defs = parser(&words("proc main in 1 0 = if 9 end end")).unwrap();
    assert_eq!(
        defs,
        vec![Definition::Proc(Proc {
            name: "main".to_string(),
            ops: vec![
                Operation::Integer(1),
                Operation::Integer(0),
                Operation::Equal,
                Operation::If(vec![Operation::Integer(9)]),
            ],
            inputs: vec![],
            outputs: vec![],
        })]
    );
    let mut compiler = Compiler::new(&defs);
    let error = compiler.compile().unwrap_err();
    assert_eq!(
        error,
        CompileError { kind: ErrorKind::UnbalancedBranch, definition: "main".to_string(), index: 3 }
    );
    assert_eq!(compiler.module().functions.len(), 1);
}

#[test]
fn conditional_that_keeps_the_stack_is_accepted() {
    let module = compile("proc main int in dup if 9 print end end").unwrap();
    assert_eq!(run_main(&module, &[1]), (vec![1], vec![9]));
    assert_eq!(run_main(&module, &[0]), (vec![0], vec![]));
    let main = &module.functions[1];
    assert_eq!(main.blocks.len(), 4);
}

#[test]
fn constant_built_by_hand_is_inlined() {
    let defs = vec![
        Definition::Const(Const { name: "FIVE".to_string(), ops: vec![Operation::Integer(5)] }),
        Definition::Proc(Proc {
            name: "main".to_string(),
            ops: vec![Operation::Word("FIVE".to_string()), Operation::Dup, Operation::Add],
            inputs: vec![],
            outputs: vec![],
        }),
    ];
    let mut compiler = Compiler::new(&defs);
    compiler.compile().unwrap();
    assert_eq!(run_main(compiler.module(), &[]), (vec![10], vec![]));
}
