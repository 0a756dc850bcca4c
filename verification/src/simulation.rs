//! The functions that the generator builds compute what their procedures
//! mean.
//!
//! The proof follows the generator: while a function is being built,
//! running it from the place where an operation sequence started stops at
//! the place where the sequence ended, with the values on the simulated
//! stack standing for the integers that the sequence leaves on the stack.

use vstd::prelude::*;
use crate::ast::{DefView, OpView, ProcView};
use crate::ir::{
    find_function, lemma_find_function, print_name, BinOp, BlockView, FunctionView, InstView,
    TermView, Value,
};
use crate::meaning::{
    binary_meaning, call_meaning, divide_meaning, op_meaning, ops_meaning, proc_meaning, Effect,
};
use crate::semantics::{
    all_defined, binary_result, call_function, is_result, reg_key, run_from, run_inst, value_of,
    values_of, with_results, Machine, Outcome, Progress, Stop,
};
use crate::generation::{
    find_const, find_proc, gen_entry, gen_op, gen_ops, gen_proc, lemma_find_const, lemma_find_proc,
    lemma_remaining_enter, level, GenState,
};

verus! {

/// No block of the function returns.
pub open spec fn no_returns(func: FunctionView) -> bool {
    forall|b: int| 0 <= b < func.blocks.len() ==> !((#[trigger] func.blocks[b]).term is Return)
}

/// Block `b` of the function jumps and branches only to blocks behind it.
pub open spec fn target_ok(func: FunctionView, b: int) -> bool {
    match func.blocks[b].term {
        TermView::Jump(target) => b < target < func.blocks.len(),
        TermView::Branch { then_block, else_block, .. } => b < then_block < func.blocks.len() && b
            < else_block < func.blocks.len(),
        _ => true,
    }
}

/// Every block of the function jumps and branches only to blocks behind
/// it.
pub open spec fn targets_ok(func: FunctionView) -> bool {
    forall|b: int| 0 <= b < func.blocks.len() ==> #[trigger] target_ok(func, b)
}

/// The function that is being built is in order: the current block is one
/// of its blocks and has no end yet, no block returns, and control only
/// moves forward.
pub open spec fn state_ok(s: GenState) -> bool {
    &&& 0 <= s.cur < s.func.blocks.len()
    &&& s.func.blocks[s.cur].term is Open
    &&& no_returns(s.func)
    &&& targets_ok(s.func)
}

/// A block that has an end stays as it is; one without may receive
/// instructions and an end.
pub open spec fn block_extends(before: BlockView, after: BlockView) -> bool {
    if before.term is Open {
        before.insts.is_prefix_of(after.insts)
    } else {
        after == before
    }
}

/// The second function is the first one, built further.
pub open spec fn extends(before: FunctionView, after: FunctionView) -> bool {
    &&& before.blocks.len() <= after.blocks.len()
    &&& forall|b: int|
        0 <= b < before.blocks.len() ==> block_extends(#[trigger] before.blocks[b], after.blocks[b])
}

/// Every register of the first map is one of the second, with the same
/// integer.
pub open spec fn regs_extend(
    before: Map<(int, int, int), u64>,
    after: Map<(int, int, int), u64>,
) -> bool {
    forall|key: (int, int, int)| #[trigger]
        before.contains_key(key) ==> after.contains_key(key) && after[key] == before[key]
}

/// Every register is a result of an instruction of the function.
pub open spec fn regs_within(regs: Map<(int, int, int), u64>, func: FunctionView) -> bool {
    forall|key: (int, int, int)| #[trigger]
        regs.contains_key(key) ==> 0 <= key.0 < func.blocks.len() && 0 <= key.1
            < func.blocks[key.0].insts.len()
}

/// The machine fits the state: every value on the simulated stack stands
/// for an integer, and no register belongs to an instruction that is yet
/// to come.
pub open spec fn machine_ok(s: GenState, args: Seq<u64>, machine: Machine) -> bool {
    all_defined(s.stack, args, machine.regs) && regs_within(machine.regs, s.func)
}

/// Running a function that is being built gives the same as running it
/// once it is built further, up to the place where the first run stops.
pub proof fn lemma_run_extends(
    module: Seq<FunctionView>,
    before: FunctionView,
    after: FunctionView,
    limit: int,
    block: int,
    inst: int,
    args: Seq<u64>,
    machine: Machine,
)
    requires
        extends(before, after),
        no_returns(before),
        targets_ok(before),
        0 <= block < before.blocks.len(),
        0 <= inst <= before.blocks[block].insts.len(),
    ensures
        match run_from(module, before, limit, block, inst, args, machine) {
            Stop::Open { block: b, machine: m } => 0 <= b < before.blocks.len()
                && before.blocks[b].term is Open && run_from(
                module,
                after,
                limit,
                block,
                inst,
                args,
                machine,
            ) == run_from(module, after, limit, b, before.blocks[b].insts.len() as int, args, m),
            other => run_from(module, after, limit, block, inst, args, machine) == other,
        },
    decreases before.blocks.len() - block, before.blocks[block].insts.len() - inst,
{
    let here = before.blocks[block];
    assert(block_extends(here, after.blocks[block]));
    assert(target_ok(before, block));
    if limit < 0 {
    } else if inst < here.insts.len() {
        assert(after.blocks[block].insts[inst] == here.insts[inst]);
        match run_inst(module, limit, here.insts[inst], block, inst, args, machine) {
            Progress::Next(next) => {
                lemma_run_extends(module, before, after, limit, block, inst + 1, args, next);
            },
            _ => {},
        }
    } else {
        match here.term {
            TermView::Open => {},
            TermView::Return(_) => {},
            TermView::Jump(target) => {
                lemma_run_extends(module, before, after, limit, target, 0, args, machine);
            },
            TermView::Branch { cond, then_block, else_block } => {
                match value_of(cond, args, machine.regs) {
                    Some(c) => {
                        let target = if c != 0 {
                            then_block
                        } else {
                            else_block
                        };
                        lemma_run_extends(
                            module,
                            before,
                            after,
                            limit,
                            target,
                            0,
                            args,
                            machine,
                        );
                    },
                    None => {},
                }
            },
        }
    }
}

/// Values that stand for integers stand for the same integers once more
/// registers are known.
pub proof fn lemma_values_extend(
    values: Seq<Value>,
    args: Seq<u64>,
    before: Map<(int, int, int), u64>,
    after: Map<(int, int, int), u64>,
)
    requires
        all_defined(values, args, before),
        regs_extend(before, after),
    ensures
        all_defined(values, args, after),
        values_of(values, args, after) == values_of(values, args, before),
{
    assert forall|i: int| 0 <= i < values.len() implies value_of(values[i], args, after)
        == #[trigger] value_of(values[i], args, before) by {
        assert(value_of(values[i], args, before) is Some);
        if values[i] is Reg {
            assert(before.contains_key(reg_key(values[i])));
        }
    }
    assert forall|i: int| 0 <= i < values.len() implies (#[trigger] value_of(
        values[i],
        args,
        after,
    )) is Some by {
        assert(value_of(values[i], args, before) is Some);
    }
    assert(values_of(values, args, after) =~= values_of(values, args, before));
}

/// A function that returns, returns as many values as it has results.
pub proof fn lemma_run_returns(
    module: Seq<FunctionView>,
    func: FunctionView,
    limit: int,
    block: int,
    inst: int,
    args: Seq<u64>,
    machine: Machine,
)
    ensures
        run_from(module, func, limit, block, inst, args, machine) matches Stop::Returned {
            values,
            ..
        } ==> values.len() == func.results.len(),
    decreases func.blocks.len() - block, func.blocks[block].insts.len() - inst,
{
    if limit < 0 || block < 0 || block >= func.blocks.len() || inst < 0 {
    } else if inst < func.blocks[block].insts.len() {
        match run_inst(module, limit, func.blocks[block].insts[inst], block, inst, args, machine) {
            Progress::Next(next) => {
                lemma_run_returns(module, func, limit, block, inst + 1, args, next);
            },
            _ => {},
        }
    } else {
        match func.blocks[block].term {
            TermView::Jump(target) => {
                if block < target < func.blocks.len() {
                    lemma_run_returns(module, func, limit, target, 0, args, machine);
                }
            },
            TermView::Branch { cond, then_block, else_block } => {
                match value_of(cond, args, machine.regs) {
                    Some(c) => {
                        let target = if c != 0 {
                            then_block
                        } else {
                            else_block
                        };
                        if block < target < func.blocks.len() {
                            lemma_run_returns(module, func, limit, target, 0, args, machine);
                        }
                    },
                    None => {},
                }
            },
            _ => {},
        }
    }
}

/// A call that returns, returns as many values as the function has
/// results.
pub proof fn lemma_call_returns(
    module: Seq<FunctionView>,
    f: int,
    args: Seq<u64>,
    output: Seq<u64>,
)
    ensures
        call_function(module, f, args, output) matches Outcome::Returned { values, .. } ==> 0 <= f
            < module.len() && values.len() == module[f].results.len(),
{
    if 0 <= f < module.len() && args.len() == module[f].params.len() && !module[f].is_external() {
        lemma_run_returns(
            module,
            module[f],
            f,
            0,
            0,
            args,
            Machine { regs: Map::empty(), output },
        );
    }
}

/// A function that is found in a module is found at the same place in a
/// module that has more functions behind.
pub proof fn lemma_find_function_grows(
    before: Seq<FunctionView>,
    after: Seq<FunctionView>,
    name: Seq<char>,
    from: int,
)
    requires
        before.is_prefix_of(after),
        find_function(before, name, from) is Some,
    ensures
        find_function(after, name, from) == find_function(before, name, from),
    decreases before.len() - from,
{
    if 0 <= from < before.len() {
        assert(after[from] == before[from]);
        if before[from].name != name {
            lemma_find_function_grows(before, after, name, from + 1);
        }
    }
}

/// The second state is the first one, built further: blocks other than
/// the one that was current are as they were, the one that was current
/// has its instructions in front, the module has its functions in front,
/// and the current block is the same or a new one.
pub open spec fn built_on(s: GenState, t: GenState) -> bool {
    &&& s.func.blocks.len() <= t.func.blocks.len()
    &&& forall|b: int|
        0 <= b < s.func.blocks.len() && b != s.cur ==> #[trigger] t.func.blocks[b]
            == s.func.blocks[b]
    &&& s.func.blocks[s.cur].insts.is_prefix_of(t.func.blocks[s.cur].insts)
    &&& t.func.name == s.func.name
    &&& t.func.params == s.func.params
    &&& t.func.results == s.func.results
    &&& s.module.is_prefix_of(t.module)
    &&& (t.cur == s.cur || t.cur >= s.func.blocks.len())
}

/// A state that is built on another holds a function that extends the
/// other's.
pub proof fn lemma_built_extends(s: GenState, t: GenState)
    requires
        state_ok(s),
        built_on(s, t),
    ensures
        extends(s.func, t.func),
{
    assert forall|b: int| 0 <= b < s.func.blocks.len() implies block_extends(
        #[trigger] s.func.blocks[b],
        t.func.blocks[b],
    ) by {
        if b != s.cur {
            assert(t.func.blocks[b] == s.func.blocks[b]);
            if s.func.blocks[b].term is Open {
                assert(s.func.blocks[b].insts.is_prefix_of(t.func.blocks[b].insts));
            }
        }
    }
}

/// Building on is transitive.
pub proof fn lemma_built_trans(s: GenState, t: GenState, u: GenState)
    requires
        state_ok(s),
        state_ok(t),
        built_on(s, t),
        built_on(t, u),
    ensures
        built_on(s, u),
{
    assert forall|b: int| 0 <= b < s.func.blocks.len() && b != s.cur implies #[trigger]
        u.func.blocks[b] == s.func.blocks[b] by {
        assert(t.func.blocks[b] == s.func.blocks[b]);
        assert(b != t.cur);
        assert(u.func.blocks[b] == t.func.blocks[b]);
    }
    let c = s.cur;
    if t.cur != s.cur {
        assert(u.func.blocks[c] == t.func.blocks[c]);
    }
    assert(s.func.blocks[c].insts.is_prefix_of(u.func.blocks[c].insts));
    assert(s.module.is_prefix_of(u.module));
}

/// Appending an instruction to the current block builds on the state.
pub proof fn lemma_emit_built(s: GenState, inst: InstView, stack: Seq<Value>)
    requires
        state_ok(s),
    ensures
        built_on(s, s.emit(inst).with_stack(stack)),
        state_ok(s.emit(inst).with_stack(stack)),
        built_on(s, s.emit(inst)),
        state_ok(s.emit(inst)),
{
    let t = s.emit(inst);
    let c = s.cur;
    assert(t.func.blocks[c].insts == s.func.blocks[c].insts.push(inst));
    assert(s.func.blocks[c].insts.is_prefix_of(t.func.blocks[c].insts));
    assert forall|b: int| 0 <= b < t.func.blocks.len() implies !((#[trigger] t.func.blocks[b]).term
        is Return) by {
        assert(!(s.func.blocks[b].term is Return));
    }
    assert forall|b: int| 0 <= b < t.func.blocks.len() implies #[trigger] target_ok(t.func, b) by {
        assert(target_ok(s.func, b));
    }
    assert(s.module.is_prefix_of(t.module));
}

/// Compiling operations builds on the state, and leaves the function
/// that is being built in order.
pub proof fn lemma_ops_built(
    defs: Seq<DefView>,
    active: Seq<Seq<char>>,
    s: GenState,
    ops: Seq<OpView>,
    from: int,
)
    requires
        state_ok(s),
        gen_ops(defs, active, s, ops, from) is Ok,
    ensures
        built_on(s, gen_ops(defs, active, s, ops, from)->Ok_0),
        state_ok(gen_ops(defs, active, s, ops, from)->Ok_0),
    decreases level(defs, active), ops, ops.len() - from,
{
    if from < 0 || from >= ops.len() {
        assert(s.module.is_prefix_of(s.module));
    } else {
        let next = gen_op(defs, active, s, ops[from], from)->Ok_0;
        lemma_op_built(defs, active, s, ops[from], from);
        lemma_ops_built(defs, active, next, ops, from + 1);
        lemma_built_trans(s, next, gen_ops(defs, active, next, ops, from + 1)->Ok_0);
    }
}

/// Compiling one operation builds on the state, and leaves the function
/// that is being built in order.
pub proof fn lemma_op_built(
    defs: Seq<DefView>,
    active: Seq<Seq<char>>,
    s: GenState,
    op: OpView,
    at: int,
)
    requires
        state_ok(s),
        gen_op(defs, active, s, op, at) is Ok,
    ensures
        built_on(s, gen_op(defs, active, s, op, at)->Ok_0),
        state_ok(gen_op(defs, active, s, op, at)->Ok_0),
    decreases level(defs, active), op, 0nat,
{
    let t = gen_op(defs, active, s, op, at)->Ok_0;
    let n = s.stack.len() as int;
    assert(s.module.is_prefix_of(s.module));
    match op {
        OpView::Integer(_) => {},
        OpView::Drop => {},
        OpView::Dup => {},
        OpView::Swap => {},
        OpView::Add => {
            lemma_binary_built(s, BinOp::Add);
        },
        OpView::Sub => {
            lemma_binary_built(s, BinOp::Sub);
        },
        OpView::Mul => {
            lemma_binary_built(s, BinOp::Mul);
        },
        OpView::Equal => {
            lemma_binary_built(s, BinOp::Eq);
        },
        OpView::DivMod => {
            lemma_divide_built(s, BinOp::UDiv, BinOp::URem);
        },
        OpView::IDivMod => {
            lemma_divide_built(s, BinOp::SDiv, BinOp::SRem);
        },
        OpView::Print => {
            let f = find_function(s.module, print_name(), 0)->Some_0;
            lemma_call_built(s, f);
        },
        OpView::If(body) => {
            let inner = s.open_branch();
            lemma_open_branch_built(s);
            lemma_ops_built(defs, active, inner, body, 0);
            let after = gen_ops(defs, active, inner, body, 0)->Ok_0;
            lemma_close_branch_built(s, after);
        },
        OpView::Word(w) => {
            match find_function(s.module, w, 0) {
                Some(f) => {
                    lemma_call_built(s, f);
                },
                None => match find_const(defs, w, 0) {
                    Some(c) => {
                        lemma_find_const(defs, w, 0);
                        lemma_remaining_enter(defs, active, w, c);
                        lemma_ops_built(defs, active.push(w), s, defs[c]->Const_0.ops, 0);
                    },
                    None => {
                        let p = find_proc(defs, w, 0)->Some_0;
                        lemma_find_proc(defs, w, 0);
                        lemma_remaining_enter(defs, active, w, p);
                        lemma_proc_built(defs, active.push(w), s, defs[p]->Proc_0);
                        let after = gen_proc(defs, active.push(w), s, defs[p]->Proc_0)->Ok_0;
                        let f = find_function(after.module, w, 0)->Some_0;
                        lemma_call_built(after, f);
                        lemma_built_trans(s, after, t);
                    },
                },
            }
        },
    }
}

/// Compiling a procedure leaves the function that is being built as it
/// is and adds functions behind those of the module.
pub proof fn lemma_proc_built(
    defs: Seq<DefView>,
    active: Seq<Seq<char>>,
    s: GenState,
    proc: ProcView,
)
    requires
        state_ok(s),
        gen_proc(defs, active, s, proc) is Ok,
    ensures
        built_on(s, gen_proc(defs, active, s, proc)->Ok_0),
        state_ok(gen_proc(defs, active, s, proc)->Ok_0),
        gen_proc(defs, active, s, proc)->Ok_0.func == s.func,
        gen_proc(defs, active, s, proc)->Ok_0.cur == s.cur,
        gen_proc(defs, active, s, proc)->Ok_0.stack == s.stack,
        gen_proc(defs, active, s, proc)->Ok_0.module.len() > s.module.len(),
    decreases level(defs, active) + 1, proc.ops, 0nat,
{
    let start = s.open_proc(proc);
    lemma_open_proc_ok(s, proc);
    lemma_ops_built(defs, active, start, proc.ops, 0);
    let body = gen_ops(defs, active, start, proc.ops, 0)->Ok_0;
    let t = gen_proc(defs, active, s, proc)->Ok_0;
    assert(t.module == body.module.push(body.finished(proc.outputs)));
    assert(s.module.is_prefix_of(t.module));
}

/// The state at the start of a procedure is in order.
pub proof fn lemma_open_proc_ok(s: GenState, proc: ProcView)
    ensures
        state_ok(s.open_proc(proc)),
        s.open_proc(proc).module == s.module,
{
    let start = s.open_proc(proc);
    assert(start.func.blocks.len() == 1);
    assert(start.func.blocks[0] == BlockView::empty());
    assert forall|b: int| 0 <= b < start.func.blocks.len() implies #[trigger] target_ok(
        start.func,
        b,
    ) by {}
}

/// A two-operand instruction builds on the state.
pub proof fn lemma_binary_built(s: GenState, op: BinOp)
    requires
        state_ok(s),
        s.stack.len() >= 2,
    ensures
        built_on(s, s.binary(op)),
        state_ok(s.binary(op)),
{
    let n = s.stack.len() as int;
    let inst = InstView::Binary { op, lhs: s.stack[n - 2], rhs: s.stack[n - 1] };
    lemma_emit_built(s, inst, s.stack.take(n - 2).push(s.next_reg(0)));
}

/// A division with remainder builds on the state.
pub proof fn lemma_divide_built(s: GenState, quotient: BinOp, remainder: BinOp)
    requires
        state_ok(s),
        s.stack.len() >= 2,
    ensures
        built_on(s, s.divide(quotient, remainder)),
        state_ok(s.divide(quotient, remainder)),
{
    let n = s.stack.len() as int;
    let x = s.stack[n - 2];
    let y = s.stack[n - 1];
    let first = s.emit(InstView::Binary { op: quotient, lhs: x, rhs: y });
    lemma_emit_built(s, InstView::Binary { op: quotient, lhs: x, rhs: y }, s.stack);
    let stack = s.stack.take(n - 2).push(s.next_reg(0)).push(first.next_reg(0));
    lemma_emit_built(first, InstView::Binary { op: remainder, lhs: x, rhs: y }, stack);
    lemma_built_trans(s, first, s.divide(quotient, remainder));
}

/// A call builds on the state.
pub proof fn lemma_call_built(s: GenState, f: int)
    requires
        state_ok(s),
    ensures
        built_on(s, s.call(f)),
        state_ok(s.call(f)),
{
    let n = s.stack.len() as int;
    let arity = s.module[f].params.len() as int;
    let inst = InstView::Call { callee: f, args: s.stack.subrange(n - arity, n) };
    let results = Seq::new(s.module[f].results.len(), |k: int| s.next_reg(k));
    lemma_emit_built(s, inst, s.stack.take(n - arity) + results);
}

/// Opening a conditional builds on the state.
pub proof fn lemma_open_branch_built(s: GenState)
    requires
        state_ok(s),
    ensures
        state_ok(s.open_branch()),
        s.open_branch().func.blocks.len() == s.func.blocks.len() + 1,
        s.open_branch().cur == s.func.blocks.len(),
        forall|b: int|
            0 <= b < s.func.blocks.len() ==> #[trigger] s.open_branch().func.blocks[b]
                == s.func.blocks[b],
        s.open_branch().func.blocks[s.func.blocks.len() as int] == BlockView::empty(),
        s.open_branch().module == s.module,
{
    let t = s.open_branch();
    assert forall|b: int| 0 <= b < t.func.blocks.len() implies !((#[trigger] t.func.blocks[b]).term
        is Return) by {
        if b < s.func.blocks.len() {
            assert(!(s.func.blocks[b].term is Return));
        }
    }
    assert forall|b: int| 0 <= b < t.func.blocks.len() implies #[trigger] target_ok(t.func, b) by {
        if b < s.func.blocks.len() {
            assert(target_ok(s.func, b));
        }
    }
}

/// Closing a conditional builds on the state in which it was opened.
pub proof fn lemma_close_branch_built(s: GenState, after: GenState)
    requires
        state_ok(s),
        s.stack.len() >= 1,
        state_ok(after),
        built_on(s.open_branch(), after),
    ensures
        built_on(s, after.close_branch(s.cur, s.stack.last(), s.open_branch().cur)),
        state_ok(after.close_branch(s.cur, s.stack.last(), s.open_branch().cur)),
{
    let inner = s.open_branch();
    lemma_open_branch_built(s);
    let t = after.close_branch(s.cur, s.stack.last(), inner.cur);
    let from = s.cur;
    let then_block = s.func.blocks.len() as int;
    let else_block = after.func.blocks.len() as int;
    let cont_block = else_block + 1;
    assert(after.cur >= then_block);
    assert(after.func.blocks[from] == inner.func.blocks[from]);
    assert(t.func.blocks.len() == else_block + 2);
    assert forall|b: int| 0 <= b < s.func.blocks.len() && b != s.cur implies #[trigger]
        t.func.blocks[b] == s.func.blocks[b] by {
        assert(after.func.blocks[b] == inner.func.blocks[b]);
    }
    assert(t.func.blocks[from].insts == s.func.blocks[from].insts);
    assert(s.func.blocks[from].insts.is_prefix_of(t.func.blocks[from].insts));
    assert forall|b: int| 0 <= b < t.func.blocks.len() implies !((#[trigger] t.func.blocks[b]).term
        is Return) by {
        if b < else_block {
            assert(!(after.func.blocks[b].term is Return));
        }
    }
    assert forall|b: int| 0 <= b < t.func.blocks.len() implies #[trigger] target_ok(t.func, b) by {
        if b < else_block && b != from && b != after.cur {
            assert(target_ok(after.func, b));
        }
    }
    assert(s.module.is_prefix_of(t.module));
}

/// The positions of the state fit in machine words.
pub open spec fn sizes_fit(s: GenState) -> bool {
    &&& s.func.blocks.len() <= usize::MAX
    &&& s.func.params.len() <= usize::MAX
    &&& forall|b: int|
        0 <= b < s.func.blocks.len() ==> (#[trigger] s.func.blocks[b]).insts.len() <= usize::MAX
    &&& forall|f: int| 0 <= f < s.module.len() ==> (#[trigger] s.module[f]).results.len() <= usize::MAX
}

/// A state on which one that fits is built fits too.
pub proof fn lemma_sizes_fit(s: GenState, t: GenState)
    requires
        state_ok(s),
        built_on(s, t),
        sizes_fit(t),
    ensures
        sizes_fit(s),
{
    assert forall|b: int| 0 <= b < s.func.blocks.len() implies (#[trigger] s.func.blocks[b]).insts.len()
        <= usize::MAX by {
        assert(t.func.blocks[b].insts.len() <= usize::MAX);
        if b != s.cur {
            assert(t.func.blocks[b] == s.func.blocks[b]);
        }
    }
    assert forall|f: int| 0 <= f < s.module.len() implies (#[trigger] s.module[f]).results.len()
        <= usize::MAX by {
        assert(t.module[f] == s.module[f]);
    }
}

/// No function of the module from index `base` on has the name of a
/// constant.
pub open spec fn consts_apart(defs: Seq<DefView>, module: Seq<FunctionView>, base: int) -> bool {
    forall|f: int|
        base <= f < module.len() ==> find_const(defs, (#[trigger] module[f]).name, 0) is None
}

/// Running the function of the second state, from the place where the
/// first state stood, has the given effect: it stops where the second
/// state stands, with the values on its stack standing for the integers
/// left on the stack; or it faults; or it is stuck.
pub open spec fn simulates(
    module: Seq<FunctionView>,
    limit: int,
    args: Seq<u64>,
    s: GenState,
    t: GenState,
    machine: Machine,
    effect: Effect,
) -> bool {
    let run = run_from(
        module,
        t.func,
        limit,
        s.cur,
        s.func.blocks[s.cur].insts.len() as int,
        args,
        machine,
    );
    match effect {
        Effect::Done { stack, output } => run matches Stop::Open { block, machine: after } && block
            == t.cur && after.output == output && machine_ok(t, args, after) && values_of(
            t.stack,
            args,
            after.regs,
        ) == stack && regs_extend(machine.regs, after.regs),
        Effect::Fault => run == Stop::Fault,
        Effect::Stuck => run == Stop::Invalid,
    }
}

/// Where a state stands, its function stops.
pub proof fn lemma_stays(
    module: Seq<FunctionView>,
    limit: int,
    args: Seq<u64>,
    s: GenState,
    machine: Machine,
)
    requires
        state_ok(s),
        limit >= 0,
    ensures
        run_from(module, s.func, limit, s.cur, s.func.blocks[s.cur].insts.len() as int, args, machine)
            == (Stop::Open { block: s.cur, machine }),
{
}

/// An operation that only rearranges the stack is simulated by a function
/// that stays as it is.
pub proof fn lemma_stack_only(
    module: Seq<FunctionView>,
    limit: int,
    args: Seq<u64>,
    s: GenState,
    stack: Seq<Value>,
    machine: Machine,
    ints: Seq<u64>,
)
    requires
        state_ok(s),
        limit >= 0,
        machine_ok(s, args, machine),
        all_defined(stack, args, machine.regs),
        values_of(stack, args, machine.regs) == ints,
    ensures
        simulates(
            module,
            limit,
            args,
            s,
            s.with_stack(stack),
            machine,
            Effect::Done { stack: ints, output: machine.output },
        ),
{
    lemma_stays(module, limit, args, s, machine);
}

/// The results of the instruction that is appended next are new
/// registers: those known stay as they are, and the values that name the
/// results stand for them.
pub proof fn lemma_results(s: GenState, inst: InstView, args: Seq<u64>, machine: Machine, results: Seq<u64>)
    requires
        state_ok(s),
        sizes_fit(s.emit(inst)),
        regs_within(machine.regs, s.func),
        results.len() <= usize::MAX,
    ensures
        regs_extend(machine.regs, with_results(machine.regs, s.cur, s.next_inst(), results)),
        regs_within(with_results(machine.regs, s.cur, s.next_inst(), results), s.emit(inst).func),
        forall|k: int|
            0 <= k < results.len() ==> #[trigger] value_of(
                s.next_reg(k),
                args,
                with_results(machine.regs, s.cur, s.next_inst(), results),
            ) == Some(results[k]),
{
    let t = s.emit(inst);
    let after = with_results(machine.regs, s.cur, s.next_inst(), results);
    assert(t.func.blocks[s.cur].insts.len() == s.next_inst() + 1);
    assert(t.func.blocks[s.cur].insts.len() <= usize::MAX);
    assert forall|key: (int, int, int)| #[trigger] machine.regs.contains_key(key) implies after.contains_key(
        key,
    ) && after[key] == machine.regs[key] by {
        assert(!is_result(key, s.cur, s.next_inst(), results.len()));
    }
    assert forall|key: (int, int, int)| #[trigger] after.contains_key(key) implies 0 <= key.0
        < t.func.blocks.len() && 0 <= key.1 < t.func.blocks[key.0].insts.len() by {
        if machine.regs.contains_key(key) {
            if key.0 != s.cur {
                assert(t.func.blocks[key.0] == s.func.blocks[key.0]);
            }
        }
    }
    assert forall|k: int| 0 <= k < results.len() implies #[trigger] value_of(
        s.next_reg(k),
        args,
        after,
    ) == Some(results[k]) by {
        assert(reg_key(s.next_reg(k)) == (s.cur, s.next_inst(), k));
        assert(is_result((s.cur, s.next_inst(), k), s.cur, s.next_inst(), results.len()));
    }
}

/// Running the instruction that was appended last: the function stops
/// behind it, or where the instruction does.
pub proof fn lemma_emitted(
    module: Seq<FunctionView>,
    limit: int,
    args: Seq<u64>,
    s: GenState,
    inst: InstView,
    machine: Machine,
)
    requires
        state_ok(s),
        limit >= 0,
    ensures
        run_from(module, s.emit(inst).func, limit, s.cur, s.next_inst(), args, machine) == (
        match run_inst(module, limit, inst, s.cur, s.next_inst(), args, machine) {
            Progress::Next(after) => Stop::Open { block: s.cur, machine: after },
            Progress::Fault => Stop::Fault,
            Progress::Invalid => Stop::Invalid,
        }),
{
    let t = s.emit(inst);
    let i = s.next_inst();
    assert(t.func.blocks[s.cur].insts[i] == inst);
    assert(t.func.blocks[s.cur].insts.len() == i + 1);
    assert(t.func.blocks[s.cur].term is Open);
    match run_inst(module, limit, inst, s.cur, i, args, machine) {
        Progress::Next(after) => {
            assert(run_from(module, t.func, limit, s.cur, i + 1, args, after) == (Stop::Open {
                block: s.cur,
                machine: after,
            }));
        },
        _ => {},
    }
}

/// A two-operand instruction is simulated.
pub proof fn lemma_binary_simulates(
    module: Seq<FunctionView>,
    limit: int,
    args: Seq<u64>,
    s: GenState,
    op: BinOp,
    machine: Machine,
)
    requires
        state_ok(s),
        limit >= 0,
        machine_ok(s, args, machine),
        s.stack.len() >= 2,
        sizes_fit(s.binary(op)),
    ensures
        simulates(
            module,
            limit,
            args,
            s,
            s.binary(op),
            machine,
            binary_meaning(op, values_of(s.stack, args, machine.regs), machine.output),
        ),
{
    let n = s.stack.len() as int;
    let lhs = s.stack[n - 2];
    let rhs = s.stack[n - 1];
    let inst = InstView::Binary { op, lhs, rhs };
    let t = s.binary(op);
    let ints = values_of(s.stack, args, machine.regs);
    assert(value_of(lhs, args, machine.regs) is Some);
    assert(value_of(rhs, args, machine.regs) is Some);
    let x = ints[n - 2];
    let y = ints[n - 1];
    lemma_emitted(module, limit, args, s, inst, machine);
    assert(t.func == s.emit(inst).func);
    assert(t.module == s.emit(inst).module);
    assert(sizes_fit(s.emit(inst)));
    match binary_result(op, x, y) {
        Some(z) => {
            lemma_results(s, inst, args, machine, seq![z]);
            let regs = with_results(machine.regs, s.cur, s.next_inst(), seq![z]);
            let after = Machine { regs, output: machine.output };
            assert(run_inst(module, limit, inst, s.cur, s.next_inst(), args, machine)
                == Progress::Next(after));
            lemma_values_extend(s.stack, args, machine.regs, regs);
            assert(value_of(s.next_reg(0), args, regs) == Some(z));
            assert forall|i: int| 0 <= i < t.stack.len() implies (#[trigger] value_of(
                t.stack[i],
                args,
                regs,
            )) is Some by {
                if i < n - 2 {
                    assert(t.stack[i] == s.stack[i]);
                    assert(value_of(s.stack[i], args, regs) is Some);
                }
            }
            assert(values_of(t.stack, args, regs) =~= ints.take(n - 2).push(z));
        },
        None => {},
    }
}

/// A division with remainder is simulated.
pub proof fn lemma_divide_simulates(
    module: Seq<FunctionView>,
    limit: int,
    args: Seq<u64>,
    s: GenState,
    quotient: BinOp,
    remainder: BinOp,
    machine: Machine,
)
    requires
        state_ok(s),
        limit >= 0,
        machine_ok(s, args, machine),
        s.stack.len() >= 2,
        sizes_fit(s.divide(quotient, remainder)),
    ensures
        simulates(
            module,
            limit,
            args,
            s,
            s.divide(quotient, remainder),
            machine,
            divide_meaning(
                quotient,
                remainder,
                values_of(s.stack, args, machine.regs),
                machine.output,
            ),
        ),
{
    let n = s.stack.len() as int;
    let lhs = s.stack[n - 2];
    let rhs = s.stack[n - 1];
    let first_inst = InstView::Binary { op: quotient, lhs, rhs };
    let second_inst = InstView::Binary { op: remainder, lhs, rhs };
    let first = s.emit(first_inst);
    let t = s.divide(quotient, remainder);
    let ints = values_of(s.stack, args, machine.regs);
    assert(value_of(lhs, args, machine.regs) is Some);
    assert(value_of(rhs, args, machine.regs) is Some);
    let x = ints[n - 2];
    let y = ints[n - 1];
    lemma_emit_built(s, first_inst, s.stack);
    lemma_emit_built(first, second_inst, t.stack);
    assert(t.func == first.emit(second_inst).func);
    lemma_sizes_fit(first, first.emit(second_inst).with_stack(t.stack));
    lemma_emitted(module, limit, args, s, first_inst, machine);
    lemma_built_extends(first, first.emit(second_inst));
    lemma_run_extends(module, first.func, t.func, limit, s.cur, s.next_inst(), args, machine);
    match binary_result(quotient, x, y) {
        Some(q) => {
            lemma_results(s, first_inst, args, machine, seq![q]);
            let regs1 = with_results(machine.regs, s.cur, s.next_inst(), seq![q]);
            let m1 = Machine { regs: regs1, output: machine.output };
            assert(run_inst(module, limit, first_inst, s.cur, s.next_inst(), args, machine)
                == Progress::Next(m1));
            lemma_values_extend(s.stack, args, machine.regs, regs1);
            assert(value_of(lhs, args, regs1) == Some(x)) by {
                assert(values_of(s.stack, args, regs1)[n - 2] == x);
            }
            assert(value_of(rhs, args, regs1) == Some(y)) by {
                assert(values_of(s.stack, args, regs1)[n - 1] == y);
            }
            lemma_emitted(module, limit, args, first, second_inst, m1);
            assert(first.next_inst() == s.next_inst() + 1);
            match binary_result(remainder, x, y) {
                Some(r) => {
                    lemma_results(first, second_inst, args, m1, seq![r]);
                    let regs2 = with_results(regs1, first.cur, first.next_inst(), seq![r]);
                    let m2 = Machine { regs: regs2, output: machine.output };
                    assert(run_inst(module, limit, second_inst, s.cur, first.next_inst(), args, m1)
                        == Progress::Next(m2));
                    lemma_values_extend(s.stack, args, regs1, regs2);
                    assert(value_of(s.next_reg(0), args, regs1) == Some(q));
                    assert(regs1.contains_key(reg_key(s.next_reg(0))));
                    assert(value_of(s.next_reg(0), args, regs2) == Some(q));
                    assert(value_of(first.next_reg(0), args, regs2) == Some(r));
                    assert forall|i: int| 0 <= i < t.stack.len() implies (#[trigger] value_of(
                        t.stack[i],
                        args,
                        regs2,
                    )) is Some by {
                        if i < n - 2 {
                            assert(t.stack[i] == s.stack[i]);
                            assert(value_of(s.stack[i], args, regs2) is Some);
                        }
                    }
                    assert(values_of(t.stack, args, regs2) =~= ints.take(n - 2).push(q).push(r));
                    assert(regs_extend(machine.regs, regs2));
                },
                None => {},
            }
        },
        None => {},
    }
}

/// A call of a function of the module is simulated.
pub proof fn lemma_call_simulates(
    module: Seq<FunctionView>,
    limit: int,
    args: Seq<u64>,
    s: GenState,
    f: int,
    machine: Machine,
)
    requires
        state_ok(s),
        machine_ok(s, args, machine),
        0 <= f < s.module.len(),
        s.module.is_prefix_of(module),
        s.module.len() <= limit,
        s.stack.len() >= s.module[f].params.len(),
        sizes_fit(s.call(f)),
    ensures
        simulates(
            module,
            limit,
            args,
            s,
            s.call(f),
            machine,
            call_meaning(module, f, values_of(s.stack, args, machine.regs), machine.output),
        ),
{
    let n = s.stack.len() as int;
    assert(module[f] == s.module[f]);
    let arity = s.module[f].params.len() as int;
    let operands = s.stack.subrange(n - arity, n);
    let inst = InstView::Call { callee: f, args: operands };
    let t = s.call(f);
    let ints = values_of(s.stack, args, machine.regs);
    assert forall|i: int| 0 <= i < operands.len() implies (#[trigger] value_of(
        operands[i],
        args,
        machine.regs,
    )) is Some by {
        assert(operands[i] == s.stack[n - arity + i]);
        assert(value_of(s.stack[n - arity + i], args, machine.regs) is Some);
    }
    assert(values_of(operands, args, machine.regs) =~= ints.subrange(n - arity, n));
    lemma_emitted(module, limit, args, s, inst, machine);
    assert(t.func == s.emit(inst).func);
    assert(t.module == s.emit(inst).module);
    assert(sizes_fit(s.emit(inst)));
    match call_function(module, f, ints.subrange(n - arity, n), machine.output) {
        Outcome::Returned { values, output } => {
            lemma_call_returns(module, f, ints.subrange(n - arity, n), machine.output);
            assert(t.module[f].results.len() <= usize::MAX);
            lemma_results(s, inst, args, machine, values);
            let regs = with_results(machine.regs, s.cur, s.next_inst(), values);
            let after = Machine { regs, output };
            assert(run_inst(module, limit, inst, s.cur, s.next_inst(), args, machine)
                == Progress::Next(after));
            lemma_values_extend(s.stack, args, machine.regs, regs);
            assert forall|i: int| 0 <= i < t.stack.len() implies (#[trigger] value_of(
                t.stack[i],
                args,
                regs,
            )) is Some by {
                if i < n - arity {
                    assert(t.stack[i] == s.stack[i]);
                    assert(value_of(s.stack[i], args, regs) is Some);
                } else {
                    assert(t.stack[i] == s.next_reg(i - (n - arity)));
                    assert(value_of(s.next_reg(i - (n - arity)), args, regs) == Some(
                        values[i - (n - arity)],
                    ));
                }
            }
            assert(values_of(t.stack, args, regs) =~= ints.take(n - arity) + values) by {
                assert forall|i: int| 0 <= i < t.stack.len() implies values_of(t.stack, args, regs)[i]
                    == (ints.take(n - arity) + values)[i] by {
                    if i < n - arity {
                        assert(t.stack[i] == s.stack[i]);
                        assert(values_of(s.stack, args, regs)[i] == ints[i]);
                    } else {
                        assert(t.stack[i] == s.next_reg(i - (n - arity)));
                        assert(value_of(s.next_reg(i - (n - arity)), args, regs) == Some(
                            values[i - (n - arity)],
                        ));
                    }
                }
            }
        },
        Outcome::Fault => {},
        Outcome::Invalid => {},
    }
}

/// A word that names a constant names no function of a module whose
/// later functions are not named like constants.
pub proof fn lemma_const_is_no_function(
    defs: Seq<DefView>,
    before: Seq<FunctionView>,
    module: Seq<FunctionView>,
    word: Seq<char>,
)
    requires
        before.is_prefix_of(module),
        consts_apart(defs, module, before.len() as int),
        find_function(before, word, 0) is None,
        find_const(defs, word, 0) is Some,
    ensures
        find_function(module, word, 0) is None,
{
    lemma_find_function(before, word, 0);
    lemma_find_function(module, word, 0);
    if find_function(module, word, 0) is Some {
        let k = find_function(module, word, 0)->Some_0;
        if k < before.len() {
            assert(module[k] == before[k]);
        } else {
            assert(find_const(defs, module[k].name, 0) is None);
        }
    }
}

/// Every name of the first list is one of the second.
pub open spec fn scope_within(scope: Seq<Seq<char>>, active: Seq<Seq<char>>) -> bool {
    forall|i: int| 0 <= i < scope.len() ==> active.contains(#[trigger] scope[i])
}

/// A list of names that is within another stays so when both receive the
/// same name.
pub proof fn lemma_scope_push(scope: Seq<Seq<char>>, active: Seq<Seq<char>>, name: Seq<char>)
    requires
        scope_within(scope, active),
    ensures
        scope_within(scope.push(name), active.push(name)),
{
    let bigger = active.push(name);
    assert forall|i: int| 0 <= i < scope.push(name).len() implies bigger.contains(
        #[trigger] scope.push(name)[i],
    ) by {
        if i < scope.len() {
            let k = choose|k: int| 0 <= k < active.len() && active[k] == scope[i];
            assert(bigger[k] == scope[i]);
        } else {
            assert(bigger[active.len() as int] == name);
        }
    }
}

/// A name that is not in a list is in none that is within it.
pub proof fn lemma_scope_lacks(scope: Seq<Seq<char>>, active: Seq<Seq<char>>, name: Seq<char>)
    requires
        scope_within(scope, active),
        !active.contains(name),
    ensures
        !scope.contains(name),
{
    if scope.contains(name) {
        let i = choose|i: int| 0 <= i < scope.len() && scope[i] == name;
        assert(active.contains(scope[i]));
    }
}

/// Compiling operations is simulated: the function that is being built
/// does what the operations mean.
pub proof fn lemma_ops_simulate(
    defs: Seq<DefView>,
    active: Seq<Seq<char>>,
    scope: Seq<Seq<char>>,
    module: Seq<FunctionView>,
    limit: int,
    args: Seq<u64>,
    s: GenState,
    ops: Seq<OpView>,
    from: int,
    machine: Machine,
)
    requires
        state_ok(s),
        machine_ok(s, args, machine),
        gen_ops(defs, active, s, ops, from) is Ok,
        sizes_fit(gen_ops(defs, active, s, ops, from)->Ok_0),
        gen_ops(defs, active, s, ops, from)->Ok_0.module.is_prefix_of(module),
        gen_ops(defs, active, s, ops, from)->Ok_0.module.len() <= limit,
        consts_apart(defs, module, s.module.len() as int),
        scope_within(scope, active),
    ensures
        simulates(
            module,
            limit,
            args,
            s,
            gen_ops(defs, active, s, ops, from)->Ok_0,
            machine,
            ops_meaning(
                defs,
                scope,
                module,
                ops,
                from,
                values_of(s.stack, args, machine.regs),
                machine.output,
            ),
        ),
    decreases level(defs, active), ops, ops.len() - from,
{
    let t = gen_ops(defs, active, s, ops, from)->Ok_0;
    let ints = values_of(s.stack, args, machine.regs);
    if from < 0 || from >= ops.len() {
        lemma_stays(module, limit, args, s, machine);
    } else {
        let next = gen_op(defs, active, s, ops[from], from)->Ok_0;
        lemma_op_built(defs, active, s, ops[from], from);
        lemma_ops_built(defs, active, next, ops, from + 1);
        lemma_sizes_fit(next, t);
        assert(next.module.is_prefix_of(module));
        lemma_op_simulate(defs, active, scope, module, limit, args, s, ops[from], from, machine);
        lemma_built_extends(next, t);
        let start = s.func.blocks[s.cur].insts.len() as int;
        lemma_run_extends(module, next.func, t.func, limit, s.cur, start, args, machine);
        match op_meaning(defs, scope, module, ops[from], ints, machine.output) {
            Effect::Done { stack, output } => {
                let mid = run_from(module, next.func, limit, s.cur, start, args, machine)->machine;
                lemma_ops_simulate(
                    defs,
                    active,
                    scope,
                    module,
                    limit,
                    args,
                    next,
                    ops,
                    from + 1,
                    mid,
                );
            },
            Effect::Fault => {},
            Effect::Stuck => {},
        }
    }
}

/// Compiling one operation is simulated.
pub proof fn lemma_op_simulate(
    defs: Seq<DefView>,
    active: Seq<Seq<char>>,
    scope: Seq<Seq<char>>,
    module: Seq<FunctionView>,
    limit: int,
    args: Seq<u64>,
    s: GenState,
    op: OpView,
    at: int,
    machine: Machine,
)
    requires
        state_ok(s),
        machine_ok(s, args, machine),
        gen_op(defs, active, s, op, at) is Ok,
        sizes_fit(gen_op(defs, active, s, op, at)->Ok_0),
        gen_op(defs, active, s, op, at)->Ok_0.module.is_prefix_of(module),
        gen_op(defs, active, s, op, at)->Ok_0.module.len() <= limit,
        consts_apart(defs, module, s.module.len() as int),
        scope_within(scope, active),
    ensures
        simulates(
            module,
            limit,
            args,
            s,
            gen_op(defs, active, s, op, at)->Ok_0,
            machine,
            op_meaning(
                defs,
                scope,
                module,
                op,
                values_of(s.stack, args, machine.regs),
                machine.output,
            ),
        ),
    decreases level(defs, active), op, 0nat,
{
    let t = gen_op(defs, active, s, op, at)->Ok_0;
    let ints = values_of(s.stack, args, machine.regs);
    let n = s.stack.len() as int;
    lemma_op_built(defs, active, s, op, at);
    assert(s.module.is_prefix_of(module));
    match op {
        OpView::Integer(k) => {
            let stack = s.stack.push(Value::Const(k));
            assert(all_defined(stack, args, machine.regs)) by {
                assert forall|i: int| 0 <= i < stack.len() implies (#[trigger] value_of(
                    stack[i],
                    args,
                    machine.regs,
                )) is Some by {
                    if i < n {
                        assert(value_of(s.stack[i], args, machine.regs) is Some);
                    }
                }
            }
            assert(values_of(stack, args, machine.regs) =~= ints.push(k));
            lemma_stack_only(module, limit, args, s, stack, machine, ints.push(k));
        },
        OpView::Drop => {
            let stack = s.stack.drop_last();
            assert(all_defined(stack, args, machine.regs)) by {
                assert forall|i: int| 0 <= i < stack.len() implies (#[trigger] value_of(
                    stack[i],
                    args,
                    machine.regs,
                )) is Some by {
                    assert(value_of(s.stack[i], args, machine.regs) is Some);
                }
            }
            assert(values_of(stack, args, machine.regs) =~= ints.drop_last());
            lemma_stack_only(module, limit, args, s, stack, machine, ints.drop_last());
        },
        OpView::Dup => {
            let stack = s.stack.push(s.stack.last());
            assert(all_defined(stack, args, machine.regs)) by {
                assert forall|i: int| 0 <= i < stack.len() implies (#[trigger] value_of(
                    stack[i],
                    args,
                    machine.regs,
                )) is Some by {
                    if i < n {
                        assert(value_of(s.stack[i], args, machine.regs) is Some);
                    } else {
                        assert(value_of(s.stack[n - 1], args, machine.regs) is Some);
                    }
                }
            }
            assert(values_of(stack, args, machine.regs) =~= ints.push(ints.last()));
            lemma_stack_only(module, limit, args, s, stack, machine, ints.push(ints.last()));
        },
        OpView::Swap => {
            let stack = s.stack.take(n - 2).push(s.stack[n - 1]).push(s.stack[n - 2]);
            assert(all_defined(stack, args, machine.regs)) by {
                assert forall|i: int| 0 <= i < stack.len() implies (#[trigger] value_of(
                    stack[i],
                    args,
                    machine.regs,
                )) is Some by {
                    if i < n - 2 {
                        assert(value_of(s.stack[i], args, machine.regs) is Some);
                    } else if i == n - 2 {
                        assert(value_of(s.stack[n - 1], args, machine.regs) is Some);
                    } else {
                        assert(value_of(s.stack[n - 2], args, machine.regs) is Some);
                    }
                }
            }
            let swapped = ints.take(n - 2).push(ints[n - 1]).push(ints[n - 2]);
            assert(values_of(stack, args, machine.regs) =~= swapped);
            lemma_stack_only(module, limit, args, s, stack, machine, swapped);
        },
        OpView::Add => {
            lemma_binary_simulates(module, limit, args, s, BinOp::Add, machine);
        },
        OpView::Sub => {
            lemma_binary_simulates(module, limit, args, s, BinOp::Sub, machine);
        },
        OpView::Mul => {
            lemma_binary_simulates(module, limit, args, s, BinOp::Mul, machine);
        },
        OpView::Equal => {
            lemma_binary_simulates(module, limit, args, s, BinOp::Eq, machine);
        },
        OpView::DivMod => {
            lemma_divide_simulates(module, limit, args, s, BinOp::UDiv, BinOp::URem, machine);
        },
        OpView::IDivMod => {
            lemma_divide_simulates(module, limit, args, s, BinOp::SDiv, BinOp::SRem, machine);
        },
        OpView::Print => {
            let f = find_function(s.module, print_name(), 0)->Some_0;
            lemma_find_function(s.module, print_name(), 0);
            lemma_find_function_grows(s.module, module, print_name(), 0);
            lemma_call_simulates(module, limit, args, s, f, machine);
        },
        OpView::If(body) => {
            lemma_if_simulates(defs, active, scope, module, limit, args, s, body, at, machine);
        },
        OpView::Word(w) => {
            match find_function(s.module, w, 0) {
                Some(f) => {
                    lemma_find_function(s.module, w, 0);
                    lemma_find_function_grows(s.module, module, w, 0);
                    lemma_call_simulates(module, limit, args, s, f, machine);
                },
                None => match find_const(defs, w, 0) {
                    Some(c) => {
                        lemma_find_const(defs, w, 0);
                        lemma_remaining_enter(defs, active, w, c);
                        lemma_const_is_no_function(defs, s.module, module, w);
                        lemma_scope_lacks(scope, active, w);
                        lemma_scope_push(scope, active, w);
                        lemma_ops_simulate(
                            defs,
                            active.push(w),
                            scope.push(w),
                            module,
                            limit,
                            args,
                            s,
                            defs[c]->Const_0.ops,
                            0,
                            machine,
                        );
                    },
                    None => {
                        let p = find_proc(defs, w, 0)->Some_0;
                        lemma_find_proc(defs, w, 0);
                        lemma_remaining_enter(defs, active, w, p);
                        lemma_proc_built(defs, active.push(w), s, defs[p]->Proc_0);
                        let after = gen_proc(defs, active.push(w), s, defs[p]->Proc_0)->Ok_0;
                        let f = find_function(after.module, w, 0)->Some_0;
                        lemma_find_function(after.module, w, 0);
                        lemma_call_built(after, f);
                        assert(after.module.is_prefix_of(module));
                        lemma_find_function_grows(after.module, module, w, 0);
                        lemma_call_simulates(module, limit, args, after, f, machine);
                    },
                },
            }
        },
    }
}

/// Compiling a conditional is simulated.
pub proof fn lemma_if_simulates(
    defs: Seq<DefView>,
    active: Seq<Seq<char>>,
    scope: Seq<Seq<char>>,
    module: Seq<FunctionView>,
    limit: int,
    args: Seq<u64>,
    s: GenState,
    body: Seq<OpView>,
    at: int,
    machine: Machine,
)
    requires
        state_ok(s),
        machine_ok(s, args, machine),
        gen_op(defs, active, s, OpView::If(body), at) is Ok,
        sizes_fit(gen_op(defs, active, s, OpView::If(body), at)->Ok_0),
        gen_op(defs, active, s, OpView::If(body), at)->Ok_0.module.is_prefix_of(module),
        gen_op(defs, active, s, OpView::If(body), at)->Ok_0.module.len() <= limit,
        consts_apart(defs, module, s.module.len() as int),
        scope_within(scope, active),
    ensures
        simulates(
            module,
            limit,
            args,
            s,
            gen_op(defs, active, s, OpView::If(body), at)->Ok_0,
            machine,
            op_meaning(
                defs,
                scope,
                module,
                OpView::If(body),
                values_of(s.stack, args, machine.regs),
                machine.output,
            ),
        ),
    decreases level(defs, active), body, body.len() + 1,
{
    let t = gen_op(defs, active, s, OpView::If(body), at)->Ok_0;
    let ints = values_of(s.stack, args, machine.regs);
    let n = s.stack.len() as int;
    let cond = s.stack.last();
    let inner = s.open_branch();
    let after = gen_ops(defs, active, inner, body, 0)->Ok_0;
    lemma_open_branch_built(s);
    lemma_ops_built(defs, active, inner, body, 0);
    lemma_close_branch_built(s, after);
    assert(t == after.close_branch(s.cur, cond, inner.cur));
    let from = s.cur;
    let start = s.func.blocks[from].insts.len() as int;
    let then_block = s.func.blocks.len() as int;
    let else_block = after.func.blocks.len() as int;
    let cont_block = else_block + 1;
    // The branch at the end of the block in which the conditional starts.
    assert(after.func.blocks[from] == inner.func.blocks[from]);
    assert(t.func.blocks[from].insts == s.func.blocks[from].insts);
    assert(t.func.blocks[from].term == (TermView::Branch { cond, then_block, else_block }));
    assert(value_of(cond, args, machine.regs) is Some) by {
        assert(value_of(s.stack[n - 1], args, machine.regs) is Some);
    }
    let c = ints[n - 1];
    assert(value_of(cond, args, machine.regs) == Some(c));
    // What the stack holds without the condition.
    assert(all_defined(inner.stack, args, machine.regs)) by {
        assert forall|i: int| 0 <= i < inner.stack.len() implies (#[trigger] value_of(
            inner.stack[i],
            args,
            machine.regs,
        )) is Some by {
            assert(value_of(s.stack[i], args, machine.regs) is Some);
        }
    }
    assert(values_of(inner.stack, args, machine.regs) =~= ints.drop_last());
    // The blocks that close the conditional.
    assert(t.func.blocks[else_block] == (BlockView {
        insts: Seq::empty(),
        term: TermView::Jump(cont_block),
    }));
    assert(t.func.blocks[cont_block] == BlockView::empty());
    assert(t.func.blocks.len() == else_block + 2);
    assert(t.cur == cont_block);
    assert(then_block <= after.cur < else_block);
    assert(t.func.blocks[after.cur].term == TermView::Jump(cont_block));
    assert(t.func.blocks[after.cur].insts == after.func.blocks[after.cur].insts);
    // The function before the conditional is closed, extended.
    assert(extends(after.func, t.func)) by {
        assert forall|b: int| 0 <= b < after.func.blocks.len() implies block_extends(
            #[trigger] after.func.blocks[b],
            t.func.blocks[b],
        ) by {
            if b == from {
                assert(after.func.blocks[from].term is Open);
            } else if b == after.cur {
            } else {
                assert(t.func.blocks[b] == after.func.blocks[b]);
            }
        }
    }
    let landed = Stop::Open { block: cont_block, machine };
    assert(regs_within(machine.regs, t.func)) by {
        lemma_built_extends(s, t);
        lemma_regs_within_extends(machine.regs, s.func, t.func);
    }
    if c != 0 {
        lemma_sizes_fit_after(s, after, t);
        assert(regs_within(machine.regs, inner.func)) by {
            lemma_regs_within_extends(machine.regs, s.func, inner.func);
        }
        assert(after.module.is_prefix_of(module));
        lemma_ops_simulate(defs, active, scope, module, limit, args, inner, body, 0, machine);
        lemma_run_extends(module, after.func, t.func, limit, then_block, 0, args, machine);
        match ops_meaning(defs, scope, module, body, 0, ints.drop_last(), machine.output) {
            Effect::Done { stack, output } => {
                let reached = run_from(module, after.func, limit, then_block, 0, args, machine)->machine;
                let last = after.func.blocks[after.cur].insts.len() as int;
                assert(run_from(module, t.func, limit, cont_block, 0, args, reached) == (Stop::Open {
                    block: cont_block,
                    machine: reached,
                }));
                assert(run_from(module, t.func, limit, after.cur, last, args, reached) == (
                Stop::Open { block: cont_block, machine: reached }));
                assert(run_from(module, t.func, limit, from, start, args, machine) == (Stop::Open {
                    block: cont_block,
                    machine: reached,
                }));
                lemma_regs_within_extends(reached.regs, after.func, t.func);
            },
            Effect::Fault => {
                assert(run_from(module, t.func, limit, from, start, args, machine) == Stop::Fault);
            },
            Effect::Stuck => {
                assert(run_from(module, t.func, limit, from, start, args, machine) == Stop::Invalid);
            },
        }
    } else {
        assert(run_from(module, t.func, limit, cont_block, 0, args, machine) == landed);
        assert(run_from(module, t.func, limit, else_block, 0, args, machine) == landed);
        assert(run_from(module, t.func, limit, from, start, args, machine) == landed);
    }
}

/// Registers that are results of a function's instructions are results of
/// the instructions of a function that extends it.
pub proof fn lemma_regs_within_extends(
    regs: Map<(int, int, int), u64>,
    before: FunctionView,
    after: FunctionView,
)
    requires
        regs_within(regs, before),
        extends(before, after),
    ensures
        regs_within(regs, after),
{
    assert forall|key: (int, int, int)| #[trigger] regs.contains_key(key) implies 0 <= key.0
        < after.blocks.len() && 0 <= key.1 < after.blocks[key.0].insts.len() by {
        assert(block_extends(before.blocks[key.0], after.blocks[key.0]));
    }
}

/// The state at the end of a conditional's body fits where the state
/// behind the conditional does.
pub proof fn lemma_sizes_fit_after(s: GenState, after: GenState, t: GenState)
    requires
        state_ok(s),
        s.stack.len() >= 1,
        state_ok(after),
        built_on(s.open_branch(), after),
        t == after.close_branch(s.cur, s.stack.last(), s.open_branch().cur),
        sizes_fit(t),
    ensures
        sizes_fit(after),
{
    assert forall|b: int| 0 <= b < after.func.blocks.len() implies (#[trigger] after.func.blocks[b]).insts.len()
        <= usize::MAX by {
        assert(t.func.blocks[b].insts == after.func.blocks[b].insts);
        assert(t.func.blocks[b].insts.len() <= usize::MAX);
    }
    assert forall|f: int| 0 <= f < after.module.len() implies (#[trigger] after.module[f]).results.len()
        <= usize::MAX by {
        assert(t.module[f] == after.module[f]);
    }
}

/// The lengths in the module fit in machine words.
pub open spec fn module_fits(module: Seq<FunctionView>) -> bool {
    forall|f: int|
        0 <= f < module.len() ==> {
            &&& (#[trigger] module[f]).params.len() <= usize::MAX
            &&& module[f].results.len() <= usize::MAX
            &&& module[f].blocks.len() <= usize::MAX
            &&& forall|b: int|
                0 <= b < module[f].blocks.len() ==> (#[trigger] module[f].blocks[b]).insts.len()
                    <= usize::MAX
        }
}

/// No procedure has the name of a constant.
pub open spec fn names_apart(defs: Seq<DefView>) -> bool {
    forall|i: int|
        0 <= i < defs.len() && (#[trigger] defs[i]) is Proc ==> find_const(defs, defs[i].name(), 0)
            is None
}

/// Functions that are not named like constants stay so when functions
/// that are not named like constants follow.
pub proof fn lemma_consts_apart_trans(
    defs: Seq<DefView>,
    s: Seq<FunctionView>,
    t: Seq<FunctionView>,
    u: Seq<FunctionView>,
)
    requires
        s.is_prefix_of(t),
        t.is_prefix_of(u),
        consts_apart(defs, t, s.len() as int),
        consts_apart(defs, u, t.len() as int),
    ensures
        consts_apart(defs, u, s.len() as int),
        s.is_prefix_of(u),
{
    assert forall|f: int| s.len() <= f < u.len() implies find_const(
        defs,
        (#[trigger] u[f]).name,
        0,
    ) is None by {
        if f < t.len() {
            assert(u[f] == t[f]);
        }
    }
}

/// Compiling operations adds no function that has the name of a
/// constant.
pub proof fn lemma_ops_names(
    defs: Seq<DefView>,
    active: Seq<Seq<char>>,
    s: GenState,
    ops: Seq<OpView>,
    from: int,
)
    requires
        state_ok(s),
        gen_ops(defs, active, s, ops, from) is Ok,
    ensures
        consts_apart(defs, gen_ops(defs, active, s, ops, from)->Ok_0.module, s.module.len() as int),
    decreases level(defs, active), ops, ops.len() - from,
{
    if from < 0 || from >= ops.len() {
    } else {
        let next = gen_op(defs, active, s, ops[from], from)->Ok_0;
        let t = gen_ops(defs, active, next, ops, from + 1)->Ok_0;
        lemma_op_built(defs, active, s, ops[from], from);
        lemma_ops_built(defs, active, next, ops, from + 1);
        lemma_op_names(defs, active, s, ops[from], from);
        lemma_ops_names(defs, active, next, ops, from + 1);
        lemma_consts_apart_trans(defs, s.module, next.module, t.module);
    }
}

/// Compiling an operation adds no function that has the name of a
/// constant.
pub proof fn lemma_op_names(
    defs: Seq<DefView>,
    active: Seq<Seq<char>>,
    s: GenState,
    op: OpView,
    at: int,
)
    requires
        state_ok(s),
        gen_op(defs, active, s, op, at) is Ok,
    ensures
        consts_apart(defs, gen_op(defs, active, s, op, at)->Ok_0.module, s.module.len() as int),
    decreases level(defs, active), op, 0nat,
{
    match op {
        OpView::If(body) => {
            let inner = s.open_branch();
            lemma_open_branch_built(s);
            lemma_ops_names(defs, active, inner, body, 0);
        },
        OpView::Word(w) => {
            match find_function(s.module, w, 0) {
                Some(f) => {},
                None => match find_const(defs, w, 0) {
                    Some(c) => {
                        lemma_find_const(defs, w, 0);
                        lemma_remaining_enter(defs, active, w, c);
                        lemma_ops_names(defs, active.push(w), s, defs[c]->Const_0.ops, 0);
                    },
                    None => {
                        let p = find_proc(defs, w, 0)->Some_0;
                        lemma_find_proc(defs, w, 0);
                        lemma_remaining_enter(defs, active, w, p);
                        lemma_proc_names(defs, active.push(w), s, defs[p]->Proc_0);
                    },
                },
            }
        },
        _ => {},
    }
}

/// Compiling a procedure that is not named like a constant adds no
/// function that has the name of a constant.
pub proof fn lemma_proc_names(
    defs: Seq<DefView>,
    active: Seq<Seq<char>>,
    s: GenState,
    proc: ProcView,
)
    requires
        find_const(defs, proc.name, 0) is None,
        gen_proc(defs, active, s, proc) is Ok,
    ensures
        consts_apart(defs, gen_proc(defs, active, s, proc)->Ok_0.module, s.module.len() as int),
    decreases level(defs, active) + 1, proc.ops, 0nat,
{
    let start = s.open_proc(proc);
    lemma_open_proc_ok(s, proc);
    lemma_ops_names(defs, active, start, proc.ops, 0);
    lemma_ops_built(defs, active, start, proc.ops, 0);
    let body = gen_ops(defs, active, start, proc.ops, 0)->Ok_0;
    let t = gen_proc(defs, active, s, proc)->Ok_0;
    let finished = body.finished(proc.outputs);
    assert(t.module == body.module.push(finished));
    assert(finished.name == proc.name) by {
        lemma_finished(start, body, proc.outputs);
    }
    assert forall|f: int| s.module.len() <= f < t.module.len() implies find_const(
        defs,
        (#[trigger] t.module[f]).name,
        0,
    ) is None by {
        if f < body.module.len() {
            assert(t.module[f] == body.module[f]);
        }
    }
}

/// The function that is finished has the name and the parameters with
/// which it was started, and the blocks of the state at the end of the
/// body, the current one ended by a return of the stack.
pub proof fn lemma_finished(start: GenState, body: GenState, outputs: Seq<crate::ast::Type>)
    requires
        state_ok(start),
        state_ok(body),
        built_on(start, body),
    ensures
        body.finished(outputs).name == start.func.name,
        body.finished(outputs).params == start.func.params,
        body.finished(outputs).results == body.result_types(outputs),
        body.finished(outputs).blocks.len() == body.func.blocks.len(),
        extends(body.func, body.finished(outputs)),
        body.finished(outputs).blocks[body.cur] == (BlockView {
            insts: body.func.blocks[body.cur].insts,
            term: TermView::Return(body.stack),
        }),
{
    let finished = body.finished(outputs);
    assert forall|b: int| 0 <= b < body.func.blocks.len() implies block_extends(
        #[trigger] body.func.blocks[b],
        finished.blocks[b],
    ) by {
        if b != body.cur {
            assert(finished.blocks[b] == body.func.blocks[b]);
        }
    }
}

/// A procedure that is compiled becomes a function that computes what
/// the procedure means, also in a module that has more functions behind.
pub proof fn lemma_proc_simulated(
    defs: Seq<DefView>,
    active: Seq<Seq<char>>,
    scope: Seq<Seq<char>>,
    module: Seq<FunctionView>,
    s: GenState,
    proc: ProcView,
    args: Seq<u64>,
    output: Seq<u64>,
)
    requires
        gen_proc(defs, active, s, proc) is Ok,
        gen_proc(defs, active, s, proc)->Ok_0.module.is_prefix_of(module),
        consts_apart(defs, module, s.module.len() as int),
        module_fits(module),
        scope_within(scope, active),
        args.len() == proc.inputs.len(),
    ensures
        gen_proc(defs, active, s, proc)->Ok_0.module.len() > s.module.len(),
        gen_proc(defs, active, s, proc)->Ok_0.module.last().name == proc.name,
        call_function(
            module,
            gen_proc(defs, active, s, proc)->Ok_0.module.len() - 1,
            args,
            output,
        ) == proc_meaning(defs, scope, module, proc, args, output),
{
    let t = gen_proc(defs, active, s, proc)->Ok_0;
    let start = s.open_proc(proc);
    let body = gen_ops(defs, active, start, proc.ops, 0)->Ok_0;
    let finished = body.finished(proc.outputs);
    let at = body.module.len() as int;
    assert(t.module == body.module.push(finished));
    assert(t.module[at] == finished);
    assert(module[at] == finished);
    assert(body.module.is_prefix_of(module));
    lemma_open_proc_ok(s, proc);
    lemma_ops_built(defs, active, start, proc.ops, 0);
    lemma_finished(start, body, proc.outputs);
    // The state at the end of the body fits in machine words.
    assert(sizes_fit(body)) by {
        assert(module[at].blocks.len() <= usize::MAX);
        assert forall|b: int| 0 <= b < body.func.blocks.len() implies (#[trigger]
            body.func.blocks[b]).insts.len() <= usize::MAX by {
            assert(block_extends(body.func.blocks[b], finished.blocks[b]));
            assert(finished.blocks[b].insts.len() <= usize::MAX);
            if body.func.blocks[b].term is Open {
                assert(body.func.blocks[b].insts.is_prefix_of(finished.blocks[b].insts));
            }
        }
        assert forall|f: int| 0 <= f < body.module.len() implies (#[trigger]
            body.module[f]).results.len() <= usize::MAX by {
            assert(module[f] == body.module[f]);
        }
    }
    // At the start the stack holds the parameters, which stand for the
    // arguments.
    let machine = Machine { regs: Map::empty(), output };
    assert(proc.inputs.len() <= usize::MAX);
    assert forall|i: int| 0 <= i < start.stack.len() implies (#[trigger] value_of(
        start.stack[i],
        args,
        machine.regs,
    )) == Some(args[i]) by {
        assert(start.stack[i] == Value::Param(i as usize));
    }
    assert(values_of(start.stack, args, machine.regs) =~= args);
    lemma_ops_simulate(defs, active, scope, module, at, args, start, proc.ops, 0, machine);
    lemma_run_extends(module, body.func, finished, at, 0, 0, args, machine);
    match ops_meaning(defs, scope, module, proc.ops, 0, args, output) {
        Effect::Done { stack, output: printed } => {
            let reached = run_from(module, body.func, at, 0, 0, args, machine)->machine;
            let last = body.func.blocks[body.cur].insts.len() as int;
            assert(body.stack.len() == finished.results.len());
            assert(run_from(module, finished, at, body.cur, last, args, reached) == (
            Stop::Returned { values: stack, output: printed }));
        },
        Effect::Fault => {},
        Effect::Stuck => {},
    }
}

/// A procedure that is compiled becomes a function that computes what
/// the procedure means: for all arguments, the function returns what the
/// body leaves on a stack that held the arguments, prints what the body
/// prints, and faults where the body does.
///
/// This holds where no procedure, and not this one, has the name of a
/// constant, and for modules whose lengths fit in machine words, as all
/// those do that the generator builds.
pub proof fn procedure_is_simulated(
    defs: Seq<DefView>,
    active: Seq<Seq<char>>,
    s: GenState,
    proc: ProcView,
    args: Seq<u64>,
    output: Seq<u64>,
)
    requires
        names_apart(defs),
        find_const(defs, proc.name, 0) is None,
        find_function(s.module, proc.name, 0) is None,
        gen_entry(defs, active, s, proc) is Ok,
        module_fits(gen_entry(defs, active, s, proc)->Ok_0.module),
        args.len() == proc.inputs.len(),
    ensures
        gen_entry(defs, active, s, proc)->Ok_0.module.len() > s.module.len(),
        gen_entry(defs, active, s, proc)->Ok_0.module.last().name == proc.name,
        call_function(
            gen_entry(defs, active, s, proc)->Ok_0.module,
            gen_entry(defs, active, s, proc)->Ok_0.module.len() - 1,
            args,
            output,
        ) == proc_meaning(
            defs,
            Seq::empty(),
            gen_entry(defs, active, s, proc)->Ok_0.module,
            proc,
            args,
            output,
        ),
{
    let inner = active.push(proc.name);
    let t = gen_entry(defs, active, s, proc)->Ok_0;
    lemma_proc_names(defs, inner, s, proc);
    assert(t.module.is_prefix_of(t.module));
    lemma_proc_simulated(defs, inner, Seq::empty(), t.module, s, proc, args, output);
}

} // verus!
