//! What a sequence of operations means: its effect on a stack of integers
//! and on the integers printed, given the functions of a module.
//!
//! A word that names a function of the module calls it; any other word
//! that names a constant stands for the constant's operations. A
//! conditional takes the condition from the stack and runs its body when
//! the condition is not zero.

use vstd::prelude::*;
use crate::ast::{DefView, OpView, ProcView};
use crate::ir::{find_function, print_name, BinOp, FunctionView};
use crate::semantics::{binary_result, call_function, Outcome};
use crate::generation::{find_const, lemma_find_const, lemma_remaining_enter, level};

verus! {

/// How running operations ends.
pub enum Effect {
    /// With this stack, top last, having printed these integers.
    Done { stack: Seq<u64>, output: Seq<u64> },
    /// In a division by zero, or a signed division that overflows.
    Fault,
    /// Nowhere: the stack holds too few values, a word means nothing, or a
    /// function that is called is not well formed.
    Stuck,
}

/// The effect of a two-operand operation on the top two values.
pub open spec fn binary_meaning(op: BinOp, stack: Seq<u64>, output: Seq<u64>) -> Effect {
    let n = stack.len() as int;
    if n < 2 {
        Effect::Stuck
    } else {
        match binary_result(op, stack[n - 2], stack[n - 1]) {
            Some(z) => Effect::Done { stack: stack.take(n - 2).push(z), output },
            None => Effect::Fault,
        }
    }
}

/// The effect of a division with remainder on the top two values.
pub open spec fn divide_meaning(
    quotient: BinOp,
    remainder: BinOp,
    stack: Seq<u64>,
    output: Seq<u64>,
) -> Effect {
    let n = stack.len() as int;
    if n < 2 {
        Effect::Stuck
    } else {
        match (
            binary_result(quotient, stack[n - 2], stack[n - 1]),
            binary_result(remainder, stack[n - 2], stack[n - 1]),
        ) {
            (Some(q), Some(r)) => Effect::Done { stack: stack.take(n - 2).push(q).push(r), output },
            _ => Effect::Fault,
        }
    }
}

/// The effect of calling function `f` of the module on the top values.
pub open spec fn call_meaning(
    module: Seq<FunctionView>,
    f: int,
    stack: Seq<u64>,
    output: Seq<u64>,
) -> Effect {
    let n = stack.len() as int;
    let arity = module[f].params.len() as int;
    if n < arity {
        Effect::Stuck
    } else {
        match call_function(module, f, stack.subrange(n - arity, n), output) {
            Outcome::Returned { values, output } => Effect::Done {
                stack: stack.take(n - arity) + values,
                output,
            },
            Outcome::Fault => Effect::Fault,
            Outcome::Invalid => Effect::Stuck,
        }
    }
}

/// The effect of the operations from index `from` on.
pub open spec fn ops_meaning(
    defs: Seq<DefView>,
    active: Seq<Seq<char>>,
    module: Seq<FunctionView>,
    ops: Seq<OpView>,
    from: int,
    stack: Seq<u64>,
    output: Seq<u64>,
) -> Effect
    decreases level(defs, active), ops, ops.len() - from,
{
    if from < 0 || from >= ops.len() {
        Effect::Done { stack, output }
    } else {
        match op_meaning(defs, active, module, ops[from], stack, output) {
            Effect::Done { stack, output } => ops_meaning(
                defs,
                active,
                module,
                ops,
                from + 1,
                stack,
                output,
            ),
            Effect::Fault => Effect::Fault,
            Effect::Stuck => Effect::Stuck,
        }
    }
}

/// The effect of one operation.
pub open spec fn op_meaning(
    defs: Seq<DefView>,
    active: Seq<Seq<char>>,
    module: Seq<FunctionView>,
    op: OpView,
    stack: Seq<u64>,
    output: Seq<u64>,
) -> Effect
    decreases level(defs, active), op, 0nat,
{
    let n = stack.len() as int;
    match op {
        OpView::Integer(k) => Effect::Done { stack: stack.push(k), output },
        OpView::Add => binary_meaning(BinOp::Add, stack, output),
        OpView::Sub => binary_meaning(BinOp::Sub, stack, output),
        OpView::Mul => binary_meaning(BinOp::Mul, stack, output),
        OpView::Equal => binary_meaning(BinOp::Eq, stack, output),
        OpView::DivMod => divide_meaning(BinOp::UDiv, BinOp::URem, stack, output),
        OpView::IDivMod => divide_meaning(BinOp::SDiv, BinOp::SRem, stack, output),
        OpView::Drop => if n < 1 {
            Effect::Stuck
        } else {
            Effect::Done { stack: stack.drop_last(), output }
        },
        OpView::Dup => if n < 1 {
            Effect::Stuck
        } else {
            Effect::Done { stack: stack.push(stack.last()), output }
        },
        OpView::Swap => if n < 2 {
            Effect::Stuck
        } else {
            Effect::Done { stack: stack.take(n - 2).push(stack[n - 1]).push(stack[n - 2]), output }
        },
        OpView::Print => match find_function(module, print_name(), 0) {
            Some(f) => call_meaning(module, f, stack, output),
            None => Effect::Stuck,
        },
        OpView::If(body) => if n < 1 {
            Effect::Stuck
        } else if stack.last() != 0 {
            ops_meaning(defs, active, module, body, 0, stack.drop_last(), output)
        } else {
            Effect::Done { stack: stack.drop_last(), output }
        },
        OpView::Word(w) => match find_function(module, w, 0) {
            Some(f) => call_meaning(module, f, stack, output),
            None => match find_const(defs, w, 0) {
                Some(c) => if active.contains(w) {
                    Effect::Stuck
                } else {
                    proof {
                        lemma_find_const(defs, w, 0);
                        lemma_remaining_enter(defs, active, w, c);
                    }
                    ops_meaning(
                        defs,
                        active.push(w),
                        module,
                        defs[c]->Const_0.ops,
                        0,
                        stack,
                        output,
                    )
                },
                None => Effect::Stuck,
            },
        },
    }
}

/// What a procedure means as a function: its body runs on a stack that
/// holds the arguments, and what is left on the stack is returned.
pub open spec fn proc_meaning(
    defs: Seq<DefView>,
    active: Seq<Seq<char>>,
    module: Seq<FunctionView>,
    proc: ProcView,
    args: Seq<u64>,
    output: Seq<u64>,
) -> Outcome {
    match ops_meaning(defs, active, module, proc.ops, 0, args, output) {
        Effect::Done { stack, output } => Outcome::Returned { values: stack, output },
        Effect::Fault => Outcome::Fault,
        Effect::Stuck => Outcome::Invalid,
    }
}

} // verus!
