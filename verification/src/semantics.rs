//! What a module of the target form computes.
//!
//! Running a function takes its arguments and the integers printed so far,
//! and ends in the values that it returns together with the integers
//! printed by then, in a fault (a division by zero, or a signed division
//! that overflows), or nowhere, where the module is not well formed.
//!
//! Control only moves forward: a block may jump or branch only to blocks
//! behind it, and a function may call only functions that stand before it
//! in the module.

use vstd::prelude::*;
use crate::ir::{BinOp, FunctionView, InstView, TermView, Value};

verus! {

/// The number of 64-bit integers.
pub open spec fn modulus() -> int {
    0x1_0000_0000_0000_0000
}

/// An integer reduced to 64 bits.
pub open spec fn wrap(x: int) -> u64 {
    (x % modulus()) as u64
}

/// A 64-bit integer read as a signed number in two's complement.
pub open spec fn signed(x: u64) -> int {
    if x < 0x8000_0000_0000_0000 {
        x as int
    } else {
        x - modulus()
    }
}

/// The quotient rounded towards zero.
pub open spec fn quotient(a: int, b: int) -> int
    recommends
        b != 0,
{
    if a >= 0 {
        if b > 0 {
            a / b
        } else {
            -(a / (-b))
        }
    } else {
        if b > 0 {
            -((-a) / b)
        } else {
            (-a) / (-b)
        }
    }
}

/// The remainder that goes with [`quotient`]: it has the sign of `a`.
pub open spec fn remainder(a: int, b: int) -> int
    recommends
        b != 0,
{
    a - quotient(a, b) * b
}

/// Whether a signed division of these operands is defined.
pub open spec fn signed_division_defined(x: u64, y: u64) -> bool {
    y != 0 && !(x == 0x8000_0000_0000_0000 && y == u64::MAX)
}

/// The result of a two-operand instruction, or none where it faults.
pub open spec fn binary_result(op: BinOp, x: u64, y: u64) -> Option<u64> {
    match op {
        BinOp::Add => Some(wrap(x + y)),
        BinOp::Sub => Some(wrap(x - y)),
        BinOp::Mul => Some(wrap(x * y)),
        BinOp::UDiv => if y == 0 {
            None
        } else {
            Some((x / y) as u64)
        },
        BinOp::URem => if y == 0 {
            None
        } else {
            Some((x % y) as u64)
        },
        BinOp::SDiv => if signed_division_defined(x, y) {
            Some(wrap(quotient(signed(x), signed(y))))
        } else {
            None
        },
        BinOp::SRem => if signed_division_defined(x, y) {
            Some(wrap(remainder(signed(x), signed(y))))
        } else {
            None
        },
        BinOp::Eq => Some(
            if x == y {
                1
            } else {
                0
            },
        ),
    }
}

/// A running function: the results of the instructions executed so far,
/// and the integers printed so far.
pub struct Machine {
    pub regs: Map<(int, int, int), u64>,
    pub output: Seq<u64>,
}

/// How running a function ends.
pub enum Outcome {
    /// It returned these values, having printed these integers.
    Returned { values: Seq<u64>, output: Seq<u64> },
    /// It divided by zero, or a signed division overflowed.
    Fault,
    /// The module is not well formed.
    Invalid,
}

/// Where running the blocks of a function stops.
pub enum Stop {
    /// At a return of these values, having printed these integers.
    Returned { values: Seq<u64>, output: Seq<u64> },
    /// At the end of a block that is still being filled.
    Open { block: int, machine: Machine },
    /// At a division by zero, or a signed division that overflows.
    Fault,
    /// At something that is not well formed.
    Invalid,
}

/// How running one instruction ends.
pub enum Progress {
    Next(Machine),
    Fault,
    Invalid,
}

/// The register that holds result number `slot` of instruction `inst` of
/// block `block`.
pub open spec fn reg_key(v: Value) -> (int, int, int)
    recommends
        v is Reg,
{
    (v->block as int, v->inst as int, v->slot as int)
}

/// The integer that an operand stands for.
pub open spec fn value_of(v: Value, args: Seq<u64>, regs: Map<(int, int, int), u64>) -> Option<u64> {
    match v {
        Value::Const(n) => Some(n),
        Value::Param(i) => if i < args.len() {
            Some(args[i as int])
        } else {
            None
        },
        Value::Reg { .. } => if regs.contains_key(reg_key(v)) {
            Some(regs[reg_key(v)])
        } else {
            None
        },
    }
}

/// Whether every operand stands for an integer.
pub open spec fn all_defined(
    values: Seq<Value>,
    args: Seq<u64>,
    regs: Map<(int, int, int), u64>,
) -> bool {
    forall|i: int| 0 <= i < values.len() ==> (#[trigger] value_of(values[i], args, regs)) is Some
}

/// The integers that the operands stand for.
pub open spec fn values_of(
    values: Seq<Value>,
    args: Seq<u64>,
    regs: Map<(int, int, int), u64>,
) -> Seq<u64> {
    Seq::new(values.len(), |i: int| value_of(values[i], args, regs).unwrap())
}

/// Whether a register holds one of the first `count` results of
/// instruction `inst` of block `block`.
pub open spec fn is_result(key: (int, int, int), block: int, inst: int, count: nat) -> bool {
    key.0 == block && key.1 == inst && 0 <= key.2 < count
}

/// The registers after instruction `inst` of block `block` has produced
/// `results`.
pub open spec fn with_results(
    regs: Map<(int, int, int), u64>,
    block: int,
    inst: int,
    results: Seq<u64>,
) -> Map<(int, int, int), u64> {
    Map::new(
        |key: (int, int, int)| regs.contains_key(key) || is_result(key, block, inst, results.len()),
        |key: (int, int, int)|
            if is_result(key, block, inst, results.len()) {
                results[key.2]
            } else {
                regs[key]
            },
    )
}

/// Calls function `f` of the module.
///
/// An external function of one parameter and no result prints its
/// argument.
pub open spec fn call_function(
    module: Seq<FunctionView>,
    f: int,
    args: Seq<u64>,
    output: Seq<u64>,
) -> Outcome
    decreases f, 1nat, 0nat, 0nat,
{
    if f < 0 || f >= module.len() || args.len() != module[f].params.len() {
        Outcome::Invalid
    } else if module[f].is_external() {
        if module[f].params.len() == 1 && module[f].results.len() == 0 {
            Outcome::Returned { values: Seq::empty(), output: output.push(args[0]) }
        } else {
            Outcome::Invalid
        }
    } else {
        outcome_of(
            run_from(module, module[f], f, 0, 0, args, Machine { regs: Map::empty(), output }),
        )
    }
}

/// How a call ends whose function stops there: a function that stops at
/// the end of a block that is still being filled is not well formed.
pub open spec fn outcome_of(stop: Stop) -> Outcome {
    match stop {
        Stop::Returned { values, output } => Outcome::Returned { values, output },
        Stop::Open { .. } => Outcome::Invalid,
        Stop::Fault => Outcome::Fault,
        Stop::Invalid => Outcome::Invalid,
    }
}

/// Runs a function from instruction `inst` of block `block` on, until it
/// returns or reaches the end of a block that is still being filled. The
/// function may call the functions of the module below index `limit`.
pub open spec fn run_from(
    module: Seq<FunctionView>,
    func: FunctionView,
    limit: int,
    block: int,
    inst: int,
    args: Seq<u64>,
    machine: Machine,
) -> Stop
    decreases limit, 0nat, func.blocks.len() - block, func.blocks[block].insts.len() - inst,
{
    if limit < 0 || block < 0 || block >= func.blocks.len() || inst < 0 {
        Stop::Invalid
    } else if inst < func.blocks[block].insts.len() {
        match run_inst(module, limit, func.blocks[block].insts[inst], block, inst, args, machine) {
            Progress::Next(after) => run_from(module, func, limit, block, inst + 1, args, after),
            Progress::Fault => Stop::Fault,
            Progress::Invalid => Stop::Invalid,
        }
    } else {
        match func.blocks[block].term {
            TermView::Open => Stop::Open { block, machine },
            TermView::Return(values) => if all_defined(values, args, machine.regs) && values.len()
                == func.results.len() {
                Stop::Returned {
                    values: values_of(values, args, machine.regs),
                    output: machine.output,
                }
            } else {
                Stop::Invalid
            },
            TermView::Jump(target) => if block < target < func.blocks.len() {
                run_from(module, func, limit, target, 0, args, machine)
            } else {
                Stop::Invalid
            },
            TermView::Branch { cond, then_block, else_block } => match value_of(
                cond,
                args,
                machine.regs,
            ) {
                Some(c) => {
                    let target = if c != 0 {
                        then_block
                    } else {
                        else_block
                    };
                    if block < target < func.blocks.len() {
                        run_from(module, func, limit, target, 0, args, machine)
                    } else {
                        Stop::Invalid
                    }
                },
                None => Stop::Invalid,
            },
        }
    }
}

/// Runs one instruction, the one at index `inst` of block `block`.
pub open spec fn run_inst(
    module: Seq<FunctionView>,
    limit: int,
    instruction: InstView,
    block: int,
    inst: int,
    args: Seq<u64>,
    machine: Machine,
) -> Progress
    decreases limit, 0nat, 0nat, 0nat,
{
    match instruction {
        InstView::Binary { op, lhs, rhs } => match (
            value_of(lhs, args, machine.regs),
            value_of(rhs, args, machine.regs),
        ) {
            (Some(x), Some(y)) => match binary_result(op, x, y) {
                Some(z) => Progress::Next(
                    Machine {
                        regs: with_results(machine.regs, block, inst, seq![z]),
                        output: machine.output,
                    },
                ),
                None => Progress::Fault,
            },
            _ => Progress::Invalid,
        },
        InstView::Call { callee, args: operands } => if 0 <= callee < limit && all_defined(
            operands,
            args,
            machine.regs,
        ) {
            match call_function(
                module,
                callee,
                values_of(operands, args, machine.regs),
                machine.output,
            ) {
                Outcome::Returned { values, output } => Progress::Next(
                    Machine {
                        regs: with_results(machine.regs, block, inst, values),
                        output,
                    },
                ),
                Outcome::Fault => Progress::Fault,
                Outcome::Invalid => Progress::Invalid,
            }
        } else {
            Progress::Invalid
        },
    }
}

} // verus!
