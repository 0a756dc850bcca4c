//! Well-formed modules, and a check for them.
//!
//! In a well-formed module every operand is defined before it is used, in
//! the order of the blocks; a call names a function that stands before the
//! caller and hands it as many arguments as it has parameters; every block
//! ends, in a return of as many values as the function has results, or in
//! a jump or branch to blocks behind it.

use vstd::prelude::*;
use crate::ir::{Function, FunctionView, Inst, InstView, TargetModule, TermView, Terminator, Value};

verus! {

/// How many results an instruction has.
pub open spec fn result_count(module: Seq<FunctionView>, inst: InstView) -> nat {
    match inst {
        InstView::Binary { .. } => 1,
        InstView::Call { callee, .. } => if 0 <= callee < module.len() {
            module[callee].results.len()
        } else {
            0
        },
    }
}

/// Whether an operand of instruction `inst` of block `block` is defined
/// there: a parameter is one of the function's, and a result belongs to an
/// instruction of an earlier block, or to an earlier one of the same block.
pub open spec fn value_ok(
    module: Seq<FunctionView>,
    func: FunctionView,
    block: int,
    inst: int,
    v: Value,
) -> bool {
    match v {
        Value::Const(_) => true,
        Value::Param(k) => k < func.params.len(),
        Value::Reg { block: b, inst: i, slot } => {
            &&& b < block || (b == block && i < inst)
            &&& b < func.blocks.len()
            &&& i < func.blocks[b as int].insts.len()
            &&& slot < result_count(module, func.blocks[b as int].insts[i as int])
        },
    }
}

/// Whether each operand is defined at instruction `inst` of block `block`.
pub open spec fn values_ok(
    module: Seq<FunctionView>,
    func: FunctionView,
    block: int,
    inst: int,
    values: Seq<Value>,
) -> bool {
    forall|k: int| 0 <= k < values.len() ==> value_ok(module, func, block, inst, #[trigger] values[k])
}

/// Whether instruction `inst` of block `block` of a function is well
/// formed, where the function may call those below index `limit`.
pub open spec fn inst_ok_in(
    module: Seq<FunctionView>,
    func: FunctionView,
    limit: int,
    block: int,
    inst: int,
) -> bool {
    match func.blocks[block].insts[inst] {
        InstView::Binary { lhs, rhs, .. } => value_ok(module, func, block, inst, lhs) && value_ok(
            module,
            func,
            block,
            inst,
            rhs,
        ),
        InstView::Call { callee, args } => 0 <= callee < limit && args.len()
            == module[callee].params.len() && values_ok(module, func, block, inst, args),
    }
}

/// Whether the end of block `block` of a function is well formed.
pub open spec fn term_ok_in(module: Seq<FunctionView>, func: FunctionView, block: int) -> bool {
    let end = func.blocks[block].insts.len() as int;
    match func.blocks[block].term {
        TermView::Open => false,
        TermView::Return(values) => values.len() == func.results.len() && values_ok(
            module,
            func,
            block,
            end,
            values,
        ),
        TermView::Jump(target) => block < target < func.blocks.len(),
        TermView::Branch { cond, then_block, else_block } => value_ok(module, func, block, end, cond)
            && block < then_block < func.blocks.len() && block < else_block < func.blocks.len(),
    }
}

/// Whether instruction `inst` of block `block` of function `f` is well
/// formed.
pub open spec fn inst_ok(module: Seq<FunctionView>, f: int, block: int, inst: int) -> bool {
    inst_ok_in(module, module[f], f, block, inst)
}

/// Whether the end of block `block` of function `f` is well formed.
pub open spec fn term_ok(module: Seq<FunctionView>, f: int, block: int) -> bool {
    term_ok_in(module, module[f], block)
}

/// Whether block `block` of function `f` is well formed.
pub open spec fn block_ok(module: Seq<FunctionView>, f: int, block: int) -> bool {
    &&& forall|i: int|
        0 <= i < module[f].blocks[block].insts.len() ==> #[trigger] inst_ok(module, f, block, i)
    &&& term_ok(module, f, block)
}

/// Whether function `f` is well formed.
pub open spec fn function_ok(module: Seq<FunctionView>, f: int) -> bool {
    forall|b: int| 0 <= b < module[f].blocks.len() ==> #[trigger] block_ok(module, f, b)
}

/// Whether the module is well formed.
pub open spec fn well_formed(module: Seq<FunctionView>) -> bool {
    forall|f: int| 0 <= f < module.len() ==> #[trigger] function_ok(module, f)
}

/// Whether no function has more parameters or results than fit in 32
/// bits.
pub open spec fn narrow(module: Seq<FunctionView>) -> bool {
    forall|f: int|
        0 <= f < module.len() ==> (#[trigger] module[f]).params.len() <= 0xffff_ffff
            && module[f].results.len() <= 0xffff_ffff
}

/// How many results an instruction has.
fn count_results(program: &TargetModule, inst: &Inst) -> (count: usize)
    ensures
        count == result_count(program@, inst@),
{
    match inst {
        Inst::Binary { .. } => 1,
        Inst::Call { callee, .. } => {
            if *callee < program.functions.len() {
                assert(program@[*callee as int] == program.functions@[*callee as int]@);
                program.functions[*callee].results.len()
            } else {
                0
            }
        },
    }
}

/// Whether an operand is defined at instruction `inst` of block `block`.
fn check_value(program: &TargetModule, func: &Function, block: usize, inst: usize, v: Value) -> (ok:
    bool)
    ensures
        ok == value_ok(program@, func@, block as int, inst as int, v),
{
    match v {
        Value::Const(_) => true,
        Value::Param(k) => k < func.params.len(),
        Value::Reg { block: b, inst: i, slot } => {
            if !(b < block || (b == block && i < inst)) {
                return false;
            }
            if b >= func.blocks.len() {
                return false;
            }
            assert(func@.blocks[b as int] == func.blocks@[b as int]@);
            if i >= func.blocks[b].insts.len() {
                return false;
            }
            assert(func@.blocks[b as int].insts[i as int] == func.blocks@[b as int].insts@[i as int]@);
            slot < count_results(program, &func.blocks[b].insts[i])
        },
    }
}

/// Whether each operand is defined at instruction `inst` of block `block`.
fn check_values(
    program: &TargetModule,
    func: &Function,
    block: usize,
    inst: usize,
    values: &Vec<Value>,
) -> (ok: bool)
    ensures
        ok == values_ok(program@, func@, block as int, inst as int, values@),
{
    let mut k: usize = 0;
    while k < values.len()
        invariant
            k <= values@.len(),
            forall|j: int|
                0 <= j < k ==> value_ok(
                    program@,
                    func@,
                    block as int,
                    inst as int,
                    #[trigger] values@[j],
                ),
        decreases values@.len() - k,
    {
        if !check_value(program, func, block, inst, values[k]) {
            return false;
        }
        k += 1;
    }
    true
}

/// Whether block `block` of function `f` is well formed.
fn check_block(program: &TargetModule, f: usize, block: usize) -> (ok: bool)
    requires
        f < program.functions@.len(),
        block < program.functions@[f as int].blocks@.len(),
    ensures
        ok == block_ok(program@, f as int, block as int),
{
    let func = &program.functions[f];
    let here = &func.blocks[block];
    let ghost module = program@;
    assert(module[f as int] == func@);
    assert(func@.blocks[block as int] == here@);
    let mut i: usize = 0;
    while i < here.insts.len()
        invariant
            i <= here.insts@.len(),
            module == program@,
            f < program.functions@.len(),
            func == program.functions@[f as int],
            module[f as int] == func@,
            block < func.blocks@.len(),
            here == func.blocks@[block as int],
            func@.blocks[block as int] == here@,
            forall|j: int| 0 <= j < i ==> #[trigger] inst_ok(module, f as int, block as int, j),
        decreases here.insts@.len() - i,
    {
        assert(here@.insts[i as int] == here.insts@[i as int]@);
        let ok = match &here.insts[i] {
            Inst::Binary { lhs, rhs, .. } => check_value(program, func, block, i, *lhs)
                && check_value(program, func, block, i, *rhs),
            Inst::Call { callee, args } => {
                if *callee < f {
                    assert(module[*callee as int] == program.functions@[*callee as int]@);
                    args.len() == program.functions[*callee].params.len() && check_values(
                        program,
                        func,
                        block,
                        i,
                        args,
                    )
                } else {
                    false
                }
            },
        };
        if !ok {
            assert(!inst_ok(module, f as int, block as int, i as int));
            return false;
        }
        i += 1;
    }
    let end = here.insts.len();
    match &here.term {
        Terminator::Open => false,
        Terminator::Return(values) => values.len() == func.results.len() && check_values(
            program,
            func,
            block,
            end,
            values,
        ),
        Terminator::Jump(target) => block < *target && *target < func.blocks.len(),
        Terminator::Branch { cond, then_block, else_block } => check_value(
            program,
            func,
            block,
            end,
            *cond,
        ) && block < *then_block && *then_block < func.blocks.len() && block < *else_block
            && *else_block < func.blocks.len(),
    }
}

/// Whether function `f` is well formed.
fn check_function(program: &TargetModule, f: usize) -> (ok: bool)
    requires
        f < program.functions@.len(),
    ensures
        ok == function_ok(program@, f as int),
{
    let func = &program.functions[f];
    assert(program@[f as int] == func@);
    let mut b: usize = 0;
    while b < func.blocks.len()
        invariant
            b <= func.blocks@.len(),
            f < program.functions@.len(),
            func == program.functions@[f as int],
            program@[f as int] == func@,
            forall|j: int| 0 <= j < b ==> #[trigger] block_ok(program@, f as int, j),
        decreases func.blocks@.len() - b,
    {
        if !check_block(program, f, b) {
            return false;
        }
        b += 1;
    }
    true
}

/// Whether no function has more parameters or results than fit in 32
/// bits.
pub fn is_narrow(program: &TargetModule) -> (ok: bool)
    ensures
        ok == narrow(program@),
{
    let mut f: usize = 0;
    while f < program.functions.len()
        invariant
            f <= program.functions@.len(),
            forall|j: int|
                0 <= j < f ==> (#[trigger] program@[j]).params.len() <= 0xffff_ffff
                    && program@[j].results.len() <= 0xffff_ffff,
        decreases program.functions@.len() - f,
    {
        assert(program@[f as int] == program.functions@[f as int]@);
        if program.functions[f].params.len() > 0xffff_ffff || program.functions[f].results.len()
            > 0xffff_ffff {
            return false;
        }
        f += 1;
    }
    true
}

/// Whether the module is well formed.
pub fn validate(program: &TargetModule) -> (ok: bool)
    ensures
        ok == well_formed(program@),
{
    let mut f: usize = 0;
    while f < program.functions.len()
        invariant
            f <= program.functions@.len(),
            forall|j: int| 0 <= j < f ==> #[trigger] function_ok(program@, j),
        decreases program.functions@.len() - f,
    {
        if !check_function(program, f) {
            return false;
        }
        f += 1;
    }
    true
}

} // verus!
