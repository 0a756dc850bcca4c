use stackc::ast::Type;
use stackc::interp::{binary, RunError};
use stackc::ir::{BinOp, Block, Function, Inst, TargetModule, Terminator, Value};
use stackc::validate::validate;

fn function(name: &str, params: usize, results: usize, blocks: Vec<Block>) -> Function {
    Function {
        name: name.to_string(),
        params: vec![Type::Int; params],
        results: vec![Type::Int; results],
        blocks,
    }
}

fn module_with(f: Function) -> TargetModule {
    let mut module = TargetModule::new();
    module.functions.push(f);
    module
}

fn run(module: &TargetModule, f: usize, args: &[u64]) -> Result<(Vec<u64>, Vec<u64>), RunError> {
    let mut output = Vec::new();
    let values = module.run(f, &args.to_vec(), &mut output)?;
    Ok((values, output))
}

#[test]
fn arithmetic_wraps() {
    assert_eq!(binary(BinOp::Add, 3, 4), Some(7));
    assert_eq!(binary(BinOp::Add, u64::MAX, 2), Some(1));
    assert_eq!(binary(BinOp::Sub, 3, 4), Some(u64::MAX));
    assert_eq!(binary(BinOp::Sub, 10, 4), Some(6));
    assert_eq!(binary(BinOp::Mul, 6, 7), Some(42));
    assert_eq!(binary(BinOp::Mul, 1 << 63, 2), Some(0));
    assert_eq!(binary(BinOp::Mul, u64::MAX, u64::MAX), Some(1));
}

#[test]
fn comparison_yields_one_or_zero() {
    assert_eq!(binary(BinOp::Eq, 5, 5), Some(1));
    assert_eq!(binary(BinOp::Eq, 5, 6), Some(0));
}

#[test]
fn unsigned_division() {
    assert_eq!(binary(BinOp::UDiv, 10, 3), Some(3));
    assert_eq!(binary(BinOp::URem, 10, 3), Some(1));
    assert_eq!(binary(BinOp::UDiv, u64::MAX, 2), Some(u64::MAX / 2));
    assert_eq!(binary(BinOp::URem, u64::MAX, 2), Some(1));
    assert_eq!(binary(BinOp::UDiv, 1, 0), None);
    assert_eq!(binary(BinOp::URem, 1, 0), None);
}

#[test]
fn signed_division() {
    let n = |x: i64| x as u64;
    assert_eq!(binary(BinOp::SDiv, n(-7), 2), Some(n(-3)));
    assert_eq!(binary(BinOp::SRem, n(-7), 2), Some(n(-1)));
    assert_eq!(binary(BinOp::SDiv, 7, n(-2)), Some(n(-3)));
    assert_eq!(binary(BinOp::SRem, 7, n(-2)), Some(1));
    assert_eq!(binary(BinOp::SDiv, n(-7), n(-2)), Some(3));
    assert_eq!(binary(BinOp::SRem, n(-7), n(-2)), Some(n(-1)));
    assert_eq!(binary(BinOp::SDiv, n(i64::MIN), 1), Some(n(i64::MIN)));
    assert_eq!(binary(BinOp::SDiv, n(i64::MAX), n(-1)), Some(n(-i64::MAX)));
    assert_eq!(binary(BinOp::SDiv, 1, 0), None);
    assert_eq!(binary(BinOp::SRem, 1, 0), None);
    assert_eq!(binary(BinOp::SDiv, n(i64::MIN), n(-1)), None);
    assert_eq!(binary(BinOp::SRem, n(i64::MIN), n(-1)), None);
    for x in [-9i64, -1, 0, 1, 9, i64::MIN + 1, i64::MAX] {
        for y in [-4i64, -1, 1, 4, i64::MAX, i64::MIN] {
            assert_eq!(binary(BinOp::SDiv, n(x), n(y)), Some(n(x.wrapping_div(y))));
            assert_eq!(binary(BinOp::SRem, n(x), n(y)), Some(n(x.wrapping_rem(y))));
        }
    }
}

#[test]
fn print_appends_to_the_output() {
    let module = TargetModule::new();
    assert_eq!(run(&module, 0, &[9]), Ok((vec![], vec![9])));
    let mut output = vec![1, 2];
    assert_eq!(module.run(0, &vec![3], &mut output), Ok(vec![]));
    assert_eq!(output, vec![1, 2, 3]);
}

#[test]
fn division_by_zero_is_a_fault() {
    let f = function(
        "f",
        2,
        1,
        vec![Block {
            insts: vec![Inst::Binary {
                op: BinOp::UDiv,
                lhs: Value::Param(0),
                rhs: Value::Param(1),
            }],
            term: Terminator::Return(vec![Value::Reg { block: 0, inst: 0, slot: 0 }]),
        }],
    );
    let module = module_with(f);
    assert!(validate(&module));
    assert_eq!(run(&module, 1, &[8, 2]), Ok((vec![4], vec![])));
    assert_eq!(run(&module, 1, &[8, 0]), Err(RunError::Fault));
}

#[test]
fn ill_formed_modules_are_invalid() {
    let ret = |values: Vec<Value>| Terminator::Return(values);
    let open = module_with(function("f", 0, 0, vec![Block { insts: vec![], term: Terminator::Open }]));
    let undefined = module_with(function(
        "f",
        0,
        1,
        vec![Block { insts: vec![], term: ret(vec![Value::Reg { block: 0, inst: 0, slot: 0 }]) }],
    ));
    let backward =
        module_with(function("f", 0, 0, vec![Block { insts: vec![], term: Terminator::Jump(0) }]));
    let missing_block =
        module_with(function("f", 0, 0, vec![Block { insts: vec![], term: Terminator::Jump(1) }]));
    let wrong_count =
        module_with(function("f", 0, 2, vec![Block { insts: vec![], term: ret(vec![]) }]));
    let no_param = module_with(function(
        "f",
        0,
        1,
        vec![Block { insts: vec![], term: ret(vec![Value::Param(0)]) }],
    ));
    let self_call = module_with(function(
        "f",
        0,
        0,
        vec![Block { insts: vec![Inst::Call { callee: 1, args: vec![] }], term: ret(vec![]) }],
    ));
    let wrong_arity = module_with(function(
        "f",
        0,
        0,
        vec![Block { insts: vec![Inst::Call { callee: 0, args: vec![] }], term: ret(vec![]) }],
    ));
    for module in
        [open, undefined, backward, missing_block, wrong_count, no_param, self_call, wrong_arity]
    {
        assert!(!validate(&module));
        assert_eq!(run(&module, 1, &[]), Err(RunError::Invalid));
    }
    let fine = module_with(function("f", 1, 1, vec![Block {
        insts: vec![],
        term: ret(vec![Value::Param(0)]),
    }]));
    assert!(validate(&fine));
    assert_eq!(run(&fine, 1, &[]), Err(RunError::Invalid));
    assert_eq!(run(&fine, 2, &[1]), Err(RunError::Invalid));
    assert_eq!(run(&fine, 1, &[1]), Ok((vec![1], vec![])));
}

#[test]
fn branch_tests_against_zero() {
    let f = function(
        "f",
        1,
        1,
        vec![
            Block {
                insts: vec![],
                term: Terminator::Branch { cond: Value::Param(0), then_block: 1, else_block: 2 },
            },
            Block { insts: vec![], term: Terminator::Return(vec![Value::Const(10)]) },
            Block { insts: vec![], term: Terminator::Return(vec![Value::Const(20)]) },
        ],
    );
    let module = module_with(f);
    assert!(validate(&module));
    assert_eq!(run(&module, 1, &[0]), Ok((vec![20], vec![])));
    assert_eq!(run(&module, 1, &[1]), Ok((vec![10], vec![])));
    assert_eq!(run(&module, 1, &[u64::MAX]), Ok((vec![10], vec![])));
}
