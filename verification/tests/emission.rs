use inkwell::context::Context;
use inkwell::values::{AnyValue, InstructionOpcode};
use stackc::codegen::Compiler;
use stackc::emit::emit;
use stackc::ir::{BinOp, Block, Function, Inst, TargetModule, Terminator, Value};
use stackc::parser::parser;

fn words(source: &str) -> Vec<String> {
    source.split_whitespace().map(|s| s.to_string()).collect()
}

fn llvm_text(source: &str) -> String {
    let defs = parser(&words(source)).unwrap();
    let mut compiler = Compiler::new(&defs);
    compiler.compile().unwrap();
    let context = Context::create();
    let module = context.create_module("test");
    let mut builder = context.create_builder();
    emit(compiler.module(), &context, &module, &mut builder).unwrap();
    assert!(module.verify().is_ok());
    module.print_to_string().to_string()
}

#[test]
fn emitted_sum_is_folded_to_seven() {
    let text = llvm_text("proc main in 3 4 + end");
    assert!(text.contains("declare void @print(i64)"), "{}", text);
    assert!(text.contains("define i64 @main()"), "{}", text);
    assert!(text.contains("ret i64 7"), "{}", text);
}

#[test]
fn emitted_call_passes_arguments_in_order() {
    let text = llvm_text("proc sub2 int int -- int in - end proc main in 10 3 sub2 print end");
    assert!(text.contains("define i64 @sub2(i64 %0, i64 %1)"), "{}", text);
    assert!(text.contains("sub i64 %0, %1"), "{}", text);
    assert!(text.contains("call i64 @sub2(i64 10, i64 3)"), "{}", text);
    assert!(text.contains("call void @print(i64"), "{}", text);
    assert!(text.contains("define void @main()"), "{}", text);
}

#[test]
fn emitted_pair_is_returned_as_struct() {
    let text = llvm_text("proc pair int int in divmod end proc main in 10 3 pair + end");
    assert!(text.contains("define { i64, i64 } @pair(i64 %0, i64 %1)"), "{}", text);
    assert!(text.contains("udiv i64 %0, %1"), "{}", text);
    assert!(text.contains("urem i64 %0, %1"), "{}", text);
    assert!(text.contains("insertvalue { i64, i64 }"), "{}", text);
    assert!(text.contains("call { i64, i64 } @pair(i64 10, i64 3)"), "{}", text);
    assert!(text.contains("extractvalue { i64, i64 }"), "{}", text);
}

#[test]
fn emitted_conditional_has_three_more_blocks() {
    let text = llvm_text("proc main int in dup 0 = if 9 print end end");
    assert!(text.contains("icmp eq i64 %0, 0"), "{}", text);
    assert!(text.contains("zext i1"), "{}", text);
    assert!(text.contains("br i1 %tmpne, label %then, label %else"), "{}", text);
    assert!(text.contains("br label %ifcont"), "{}", text);
    assert!(text.contains("call void @print(i64 9)"), "{}", text);
    assert!(text.contains("ret i64 %0"), "{}", text);
}

#[test]
fn ill_formed_module_is_refused() {
    let mut program = stackc::ir::TargetModule::new();
    program.functions.push(stackc::ir::Function {
        name: "f".to_string(),
        params: vec![],
        results: vec![],
        blocks: vec![stackc::ir::Block { insts: vec![], term: stackc::ir::Terminator::Open }],
    });
    let context = Context::create();
    let module = context.create_module("test");
    let mut builder = context.create_builder();
    assert_eq!(
        emit(&program, &context, &module, &mut builder).err(),
        Some(stackc::emit::EmitError::IllFormed)
    );
    assert!(module.get_function("print").is_none());
}

#[test]
fn generated_modules_are_well_formed() {
    for source in [
        "proc main in 3 4 + end",
        "proc pair int int in divmod end proc main int in dup 0 = if 9 print end 10 3 pair + + end",
        "const K 2 end proc sq int -- int in dup * end proc main in K sq K sq sq print end",
    ] {
        let defs = parser(&words(source)).unwrap();
        let mut compiler = Compiler::new(&defs);
        compiler.compile().unwrap();
        assert!(stackc::validate::validate(compiler.module()), "{}", source);
        let context = Context::create();
        let module = context.create_module("test");
        let mut builder = context.create_builder();
        let emitted = emit(compiler.module(), &context, &module, &mut builder).unwrap();
        assert_eq!(emitted.functions.len(), compiler.module().functions.len());
        assert_eq!(emitted.bodies.len(), compiler.module().functions.len());
        for (f, function) in compiler.module().functions.iter().enumerate() {
            let made = emitted.functions[f];
            let body = &emitted.bodies[f];
            assert_eq!(module.get_function(&function.name), Some(made));
            assert_eq!(made.count_params() as usize, function.params.len());
            assert_eq!(made.get_basic_blocks(), body.blocks);
            assert_eq!(body.blocks.len(), function.blocks.len());
            assert_eq!(body.values.len(), function.blocks.len());
            assert_eq!(body.ends.len(), function.blocks.len());
            for (b, block) in function.blocks.iter().enumerate() {
                assert_eq!(body.values[b].len(), block.insts.len());
                assert_eq!(body.blocks[b].get_terminator(), Some(body.ends[b]));
            }
        }
        assert!(module.verify().is_ok());
    }
}

#[test]
fn function_that_llvm_finds_malformed_is_rejected() {
    // Well formed here, but the value that is returned is defined in a
    // block that does not always run before the return.
    let mut program = TargetModule::new();
    program.functions.push(Function {
        name: "f".to_string(),
        params: vec![stackc::ast::Type::Int],
        results: vec![stackc::ast::Type::Int],
        blocks: vec![
            Block {
                insts: vec![],
                term: Terminator::Branch { cond: Value::Param(0), then_block: 1, else_block: 2 },
            },
            Block {
                insts: vec![Inst::Binary {
                    op: BinOp::Add,
                    lhs: Value::Param(0),
                    rhs: Value::Param(0),
                }],
                term: Terminator::Jump(2),
            },
            Block {
                insts: vec![],
                term: Terminator::Return(vec![Value::Reg { block: 1, inst: 0, slot: 0 }]),
            },
        ],
    });
    assert!(stackc::validate::validate(&program));
    let context = Context::create();
    let module = context.create_module("test");
    let mut builder = context.create_builder();
    assert_eq!(
        emit(&program, &context, &module, &mut builder).err(),
        Some(stackc::emit::EmitError::Rejected { function: 1 })
    );
}

#[test]
fn every_arithmetic_operation_is_emitted() {
    let text = llvm_text(
        "proc main int int in \
           swap dup print swap \
           dup print \
           + dup dup - dup dup * dup dup divmod dup dup idivmod = \
         end",
    );
    for needle in [
        "define { i64, i64, i64, i64, i64, i64 } @main(i64 %0, i64 %1)",
        "add i64 %0, %1",
        "sub i64",
        "mul i64",
        "udiv i64",
        "urem i64",
        "sdiv i64",
        "srem i64",
        "icmp eq i64",
        "zext i1",
        "call void @print(i64 %0)",
        "call void @print(i64 %1)",
    ] {
        assert!(text.contains(needle), "{} is missing in\n{}", needle, text);
    }
}

#[test]
fn external_functions_alone_are_emitted_without_fail() {
    let mut program = TargetModule::new();
    program.functions.push(Function {
        name: "putchar".to_string(),
        params: vec![stackc::ast::Type::Int],
        results: vec![stackc::ast::Type::Int],
        blocks: vec![],
    });
    program.functions.push(Function {
        name: "pair".to_string(),
        params: vec![],
        results: vec![stackc::ast::Type::Int, stackc::ast::Type::Int],
        blocks: vec![],
    });
    let context = Context::create();
    let module = context.create_module("test");
    let mut builder = context.create_builder();
    let functions = emit(&program, &context, &module, &mut builder).unwrap().functions;
    let text = module.print_to_string().to_string();
    assert!(text.contains("declare void @print(i64)"), "{}", text);
    assert!(text.contains("declare i64 @putchar(i64)"), "{}", text);
    assert!(text.contains("declare { i64, i64 } @pair()"), "{}", text);
    assert_eq!(
        functions,
        vec![
            module.get_function("print").unwrap(),
            module.get_function("putchar").unwrap(),
            module.get_function("pair").unwrap(),
        ]
    );
    let print = module.get_function("print").unwrap();
    assert_eq!(print.get_type().count_param_types(), 1);
    assert!(print.get_type().get_return_type().is_none());
    let putchar = module.get_function("putchar").unwrap();
    assert_eq!(putchar.get_type().count_param_types(), 1);
    assert!(putchar.get_type().get_return_type().unwrap().is_int_type());
    let pair = module.get_function("pair").unwrap();
    assert_eq!(pair.get_type().count_param_types(), 0);
    assert_eq!(pair.get_type().get_return_type().unwrap().into_struct_type().count_fields(), 2);
}

#[test]
fn emitted_signatures_have_the_declared_shape() {
    let defs = parser(&words(
        "proc none int int in drop drop end \
         proc one int -- int in end \
         proc three int in dup dup end",
    ))
    .unwrap();
    let mut compiler = Compiler::new(&defs);
    compiler.compile().unwrap();
    let context = Context::create();
    let module = context.create_module("test");
    let mut builder = context.create_builder();
    let functions = emit(compiler.module(), &context, &module, &mut builder).unwrap().functions;
    assert_eq!(functions.len(), 4);
    assert_eq!(functions[0].get_name().to_str(), Ok("print"));
    assert_eq!(functions[1].get_name().to_str(), Ok("none"));
    assert_eq!(functions[2].get_name().to_str(), Ok("one"));
    assert_eq!(functions[3].get_name().to_str(), Ok("three"));
    assert_eq!(functions[3].get_type().count_param_types(), 1);
    let none = module.get_function("none").unwrap().get_type();
    assert_eq!(none.count_param_types(), 2);
    assert!(none.get_return_type().is_none());
    let one = module.get_function("one").unwrap().get_type();
    assert_eq!(one.count_param_types(), 1);
    assert_eq!(one.get_return_type().unwrap().into_int_type().get_bit_width(), 64);
    let three = module.get_function("three").unwrap().get_type();
    assert_eq!(three.count_param_types(), 1);
    assert_eq!(three.get_return_type().unwrap().into_struct_type().count_fields(), 3);
}

#[test]
fn what_is_handed_back_is_what_was_built() {
    let defs = parser(&words(
        "proc pair int int in divmod end \
         proc main int -- int in dup 0 = if 9 print end 10 3 pair + + end",
    ))
    .unwrap();
    let mut compiler = Compiler::new(&defs);
    compiler.compile().unwrap();
    let context = Context::create();
    let module = context.create_module("test");
    let mut builder = context.create_builder();
    let emitted = emit(compiler.module(), &context, &module, &mut builder).unwrap();
    assert_eq!(emitted.functions.len(), 3);
    // `print` is declared and has no blocks.
    assert!(emitted.bodies[0].blocks.is_empty());
    // `pair` divides its first parameter by its second and returns a struct.
    let pair = emitted.functions[1];
    let body = &emitted.bodies[1];
    assert_eq!(body.blocks.len(), 1);
    assert_eq!(body.values[0].len(), 2);
    let quotient = body.values[0][0][0].as_instruction().unwrap();
    let remainder = body.values[0][1][0].as_instruction().unwrap();
    assert_eq!(quotient.get_opcode(), InstructionOpcode::UDiv);
    assert_eq!(remainder.get_opcode(), InstructionOpcode::URem);
    for division in [quotient, remainder] {
        assert_eq!(division.get_operand(0).unwrap().left(), pair.get_nth_param(0));
        assert_eq!(division.get_operand(1).unwrap().left(), pair.get_nth_param(1));
    }
    assert_eq!(body.ends[0].get_opcode(), InstructionOpcode::Return);
    let packed = body.ends[0].get_operand(0).unwrap().left().unwrap().into_struct_value();
    assert_eq!(packed.get_type().count_fields(), 2);
    assert_eq!(packed.get_type(), pair.get_type().get_return_type().unwrap().into_struct_type());
    // `main` branches, calls `print` in the body of the conditional, and
    // calls `pair` after it, whose two results it takes apart in order.
    let body = &emitted.bodies[2];
    assert_eq!(body.blocks.len(), 4);
    assert_eq!(body.ends[0].get_opcode(), InstructionOpcode::Br);
    assert_eq!(body.ends[0].get_num_operands(), 3);
    assert_eq!(body.ends[1].get_opcode(), InstructionOpcode::Br);
    assert_eq!(body.ends[1].get_num_operands(), 1);
    assert_eq!(body.ends[3].get_opcode(), InstructionOpcode::Return);
    assert_eq!(body.values[1].len(), 1);
    assert!(body.values[1][0].is_empty());
    let results = &body.values[3][0];
    assert_eq!(results.len(), 2);
    for (k, result) in results.iter().enumerate() {
        let extract = result.as_instruction().unwrap();
        assert_eq!(extract.get_opcode(), InstructionOpcode::ExtractValue);
        let whole = extract.get_operand(0).unwrap().left().unwrap().into_struct_value();
        let call = whole.as_instruction().unwrap();
        assert_eq!(call.get_opcode(), InstructionOpcode::Call);
        // The call has the type that `pair` returns, and the field the
        // type of its place.
        let returned = pair.get_type().get_return_type().unwrap().into_struct_type();
        assert_eq!(whole.get_type(), returned);
        assert_eq!(result.get_type(), returned.get_field_types()[k].into_int_type());
        assert_eq!(result.get_type().get_bit_width(), 64);
        let text = extract.print_to_string().to_string();
        assert!(text.trim_end().ends_with(&format!(", {}", k)), "{}", text);
    }
    assert!(module.verify().is_ok());
}

#[test]
fn declared_functions_have_the_types_they_were_added_with() {
    let defs = parser(&words(
        "proc none int int in drop drop end \
         proc one int -- int in end \
         proc three int in dup dup end",
    ))
    .unwrap();
    let mut compiler = Compiler::new(&defs);
    compiler.compile().unwrap();
    let context = Context::create();
    let module = context.create_module("test");
    let mut builder = context.create_builder();
    let emitted = emit(compiler.module(), &context, &module, &mut builder).unwrap();
    for (f, function) in compiler.module().functions.iter().enumerate() {
        let made = emitted.functions[f];
        let ty = made.get_type();
        assert_eq!(made.count_params() as usize, function.params.len());
        assert_eq!(ty.count_param_types() as usize, function.params.len());
        let params = ty.get_param_types();
        assert_eq!(params.len(), function.params.len());
        for (k, param) in params.iter().enumerate() {
            assert_eq!(param.into_int_type().get_bit_width(), 64);
            assert_eq!(made.get_nth_param(k as u32).unwrap().get_type(), *param);
        }
        assert!(made.get_nth_param(params.len() as u32).is_none());
        match function.results.len() {
            0 => assert!(ty.get_return_type().is_none()),
            1 => assert_eq!(ty.get_return_type().unwrap().into_int_type().get_bit_width(), 64),
            n => {
                let returned = ty.get_return_type().unwrap().into_struct_type();
                assert_eq!(returned.count_fields() as usize, n);
                let fields = returned.get_field_types();
                assert_eq!(fields.len(), n);
                for field in fields {
                    assert_eq!(field.into_int_type().get_bit_width(), 64);
                }
            }
        }
    }
}

#[test]
fn instructions_stand_in_the_blocks_they_were_built_for() {
    let defs = parser(&words(
        "proc pair int int in divmod end \
         proc main int -- int in dup 0 = if 9 print end 10 pair + end",
    ))
    .unwrap();
    let mut compiler = Compiler::new(&defs);
    compiler.compile().unwrap();
    let context = Context::create();
    let module = context.create_module("test");
    let mut builder = context.create_builder();
    let emitted = emit(compiler.module(), &context, &module, &mut builder).unwrap();
    let mut built: usize = 0;
    for (f, function) in compiler.module().functions.iter().enumerate() {
        let body = &emitted.bodies[f];
        for (b, block) in function.blocks.iter().enumerate() {
            assert_eq!(body.ends[b].get_parent(), Some(body.blocks[b]));
            for (i, inst) in block.insts.iter().enumerate() {
                for value in &body.values[b][i] {
                    assert_eq!(value.get_type().get_bit_width(), 64);
                    if let Some(instruction) = value.as_instruction() {
                        assert_eq!(instruction.get_parent(), Some(body.blocks[b]));
                        built += 1;
                    }
                }
                if let Inst::Call { callee, args } = inst {
                    if let Some(first) = body.values[b][i].first() {
                        let call = match function_result_count(compiler.module(), *callee) {
                            1 => first.as_instruction().unwrap(),
                            _ => first
                                .as_instruction()
                                .unwrap()
                                .get_operand(0)
                                .unwrap()
                                .left()
                                .unwrap()
                                .into_struct_value()
                                .as_instruction()
                                .unwrap(),
                        };
                        assert_eq!(call.get_opcode(), InstructionOpcode::Call);
                        assert_eq!(call.get_num_operands() as usize, args.len() + 1);
                        let called = call.get_operand(args.len() as u32).unwrap().left().unwrap();
                        assert_eq!(
                            called.into_pointer_value(),
                            emitted.functions[*callee].as_global_value().as_pointer_value()
                        );
                    }
                }
            }
        }
    }
    assert!(built >= 6);
    let last = emitted.bodies.last().unwrap().blocks.last().copied();
    assert!(last.is_some());
    assert_eq!(builder.get_insert_block(), last);
}

fn function_result_count(program: &TargetModule, callee: usize) -> usize {
    program.functions[callee].results.len()
}
