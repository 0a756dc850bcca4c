//! What the generator builds is well formed.

use vstd::prelude::*;
use crate::ast::{DefView, OpView, ProcView};
use crate::ir::{
    find_function, lemma_find_function, print_name, BinOp, BlockView, FunctionView, InstView,
    TermView, Value,
};
use crate::simulation::{
    built_on, lemma_call_built, lemma_close_branch_built, lemma_emit_built, lemma_finished,
    lemma_op_built, lemma_open_branch_built, lemma_open_proc_ok, lemma_ops_built, lemma_proc_built,
    lemma_sizes_fit, lemma_sizes_fit_after, module_fits, sizes_fit, state_ok,
};
use crate::generation::{
    find_const, find_proc, gen_entry, gen_op, gen_ops, gen_proc, lemma_find_const, lemma_find_proc,
    lemma_remaining_enter, level, GenState,
};
use crate::validate::{
    block_ok, function_ok, inst_ok, inst_ok_in, result_count, term_ok_in, value_ok, values_ok,
    well_formed,
};

verus! {

/// The state is well formed: so is the module; every instruction of the
/// function that is being built is, and every block of it that has an end;
/// and the values on the stack are defined where the next instruction
/// goes.
pub open spec fn partial_ok(s: GenState) -> bool {
    &&& well_formed(s.module)
    &&& forall|b: int, i: int|
        0 <= b < s.func.blocks.len() && 0 <= i < s.func.blocks[b].insts.len() ==> #[trigger] inst_ok_in(
            s.module,
            s.func,
            s.module.len() as int,
            b,
            i,
        )
    &&& forall|b: int|
        0 <= b < s.func.blocks.len() ==> s.func.blocks[b].term is Open || #[trigger] term_ok_in(
            s.module,
            s.func,
            b,
        )
    &&& values_ok(s.module, s.func, s.cur, s.func.blocks[s.cur].insts.len() as int, s.stack)
}

/// The second function holds the instructions of the first, each where it
/// was, and has the same parameters.
pub open spec fn keeps_insts(before: FunctionView, after: FunctionView) -> bool {
    &&& before.params == after.params
    &&& before.blocks.len() <= after.blocks.len()
    &&& forall|b: int|
        0 <= b < before.blocks.len() ==> (#[trigger] before.blocks[b]).insts.is_prefix_of(
            after.blocks[b].insts,
        )
}

/// Every call of the function names a function of the module.
pub open spec fn calls_within(module: Seq<FunctionView>, func: FunctionView) -> bool {
    forall|b: int, i: int|
        0 <= b < func.blocks.len() && 0 <= i < func.blocks[b].insts.len() ==> (
        #[trigger] func.blocks[b].insts[i] matches InstView::Call { callee, .. } ==> 0 <= callee
            < module.len())
}

/// A value that is defined at a place is defined at every later place,
/// also after the function and the module have grown.
pub proof fn lemma_value_stays(
    module: Seq<FunctionView>,
    func: FunctionView,
    block: int,
    inst: int,
    module2: Seq<FunctionView>,
    func2: FunctionView,
    block2: int,
    inst2: int,
    v: Value,
)
    requires
        value_ok(module, func, block, inst, v),
        0 <= block < func.blocks.len(),
        module.is_prefix_of(module2),
        keeps_insts(func, func2),
        calls_within(module, func),
        block < block2 || (block == block2 && inst <= inst2),
    ensures
        value_ok(module2, func2, block2, inst2, v),
{
    if v is Reg {
        let b = v->block as int;
        let i = v->inst as int;
        assert(func.blocks[b].insts.is_prefix_of(func2.blocks[b].insts));
        assert(func2.blocks[b].insts[i] == func.blocks[b].insts[i]);
        match func.blocks[b].insts[i] {
            InstView::Call { callee, .. } => {
                assert(0 <= callee < module.len());
                assert(module2[callee] == module[callee]);
            },
            _ => {},
        }
    }
}

/// Values that are defined at a place are defined at every later place,
/// also after the function and the module have grown.
pub proof fn lemma_values_stay(
    module: Seq<FunctionView>,
    func: FunctionView,
    block: int,
    inst: int,
    module2: Seq<FunctionView>,
    func2: FunctionView,
    block2: int,
    inst2: int,
    values: Seq<Value>,
)
    requires
        values_ok(module, func, block, inst, values),
        0 <= block < func.blocks.len(),
        module.is_prefix_of(module2),
        keeps_insts(func, func2),
        calls_within(module, func),
        block < block2 || (block == block2 && inst <= inst2),
    ensures
        values_ok(module2, func2, block2, inst2, values),
{
    assert forall|k: int| 0 <= k < values.len() implies value_ok(
        module2,
        func2,
        block2,
        inst2,
        #[trigger] values[k],
    ) by {
        lemma_value_stays(module, func, block, inst, module2, func2, block2, inst2, values[k]);
    }
}

/// In a well-formed state every call names a function of the module.
pub proof fn lemma_calls_within(s: GenState)
    requires
        partial_ok(s),
    ensures
        calls_within(s.module, s.func),
{
    assert forall|b: int, i: int|
        0 <= b < s.func.blocks.len() && 0 <= i < s.func.blocks[b].insts.len() implies (
    #[trigger] s.func.blocks[b].insts[i] matches InstView::Call { callee, .. } ==> 0 <= callee
        < s.module.len()) by {
        assert(inst_ok_in(s.module, s.func, s.module.len() as int, b, i));
    }
}

/// An instruction that is well formed stays so after the function and the
/// module have grown.
pub proof fn lemma_inst_stays(
    module: Seq<FunctionView>,
    func: FunctionView,
    limit: int,
    module2: Seq<FunctionView>,
    func2: FunctionView,
    limit2: int,
    block: int,
    inst: int,
)
    requires
        0 <= block < func.blocks.len(),
        0 <= inst < func.blocks[block].insts.len(),
        inst_ok_in(module, func, limit, block, inst),
        limit <= module.len(),
        limit <= limit2,
        module.is_prefix_of(module2),
        keeps_insts(func, func2),
        calls_within(module, func),
    ensures
        inst_ok_in(module2, func2, limit2, block, inst),
{
    assert(func.blocks[block].insts.is_prefix_of(func2.blocks[block].insts));
    assert(func2.blocks[block].insts[inst] == func.blocks[block].insts[inst]);
    match func.blocks[block].insts[inst] {
        InstView::Binary { lhs, rhs, .. } => {
            lemma_value_stays(module, func, block, inst, module2, func2, block, inst, lhs);
            lemma_value_stays(module, func, block, inst, module2, func2, block, inst, rhs);
        },
        InstView::Call { callee, args } => {
            assert(module2[callee] == module[callee]);
            lemma_values_stay(module, func, block, inst, module2, func2, block, inst, args);
        },
    }
}

/// A state that is built on a well-formed state keeps what was well
/// formed: the instructions that were there, and the ends of the blocks
/// that had one.
pub proof fn lemma_kept(s: GenState, t: GenState)
    requires
        state_ok(s),
        partial_ok(s),
        built_on(s, t),
    ensures
        keeps_insts(s.func, t.func),
        calls_within(s.module, s.func),
        forall|b: int, i: int|
            0 <= b < s.func.blocks.len() && 0 <= i < s.func.blocks[b].insts.len()
                ==> #[trigger] inst_ok_in(t.module, t.func, t.module.len() as int, b, i),
        forall|b: int|
            0 <= b < s.func.blocks.len() && b != s.cur ==> t.func.blocks[b].term is Open
                || #[trigger] term_ok_in(t.module, t.func, b),
{
    lemma_calls_within(s);
    assert forall|b: int| 0 <= b < s.func.blocks.len() implies (#[trigger] s.func.blocks[b]).insts.is_prefix_of(
        t.func.blocks[b].insts,
    ) by {
        if b != s.cur {
            assert(t.func.blocks[b] == s.func.blocks[b]);
        }
    }
    assert forall|b: int, i: int|
        0 <= b < s.func.blocks.len() && 0 <= i < s.func.blocks[b].insts.len() implies #[trigger] inst_ok_in(
        t.module,
        t.func,
        t.module.len() as int,
        b,
        i,
    ) by {
        assert(inst_ok_in(s.module, s.func, s.module.len() as int, b, i));
        lemma_inst_stays(
            s.module,
            s.func,
            s.module.len() as int,
            t.module,
            t.func,
            t.module.len() as int,
            b,
            i,
        );
    }
    assert forall|b: int| 0 <= b < s.func.blocks.len() && b != s.cur implies t.func.blocks[b].term
        is Open || #[trigger] term_ok_in(t.module, t.func, b) by {
        assert(t.func.blocks[b] == s.func.blocks[b]);
        if !(s.func.blocks[b].term is Open) {
            assert(term_ok_in(s.module, s.func, b));
            let end = s.func.blocks[b].insts.len() as int;
            match s.func.blocks[b].term {
                TermView::Branch { cond, .. } => {
                    lemma_value_stays(s.module, s.func, b, end, t.module, t.func, b, end, cond);
                },
                _ => {},
            }
        }
    }
}

/// Appending a well-formed instruction, and leaving on the stack values
/// that were defined or that are its results, keeps the state well formed.
pub proof fn lemma_emit_ok(s: GenState, inst: InstView, stack: Seq<Value>)
    requires
        state_ok(s),
        partial_ok(s),
        sizes_fit(s.emit(inst)),
        inst_ok_in(s.module, s.emit(inst).func, s.module.len() as int, s.cur, s.next_inst()),
        forall|k: int|
            0 <= k < stack.len() ==> value_ok(
                s.module,
                s.func,
                s.cur,
                s.next_inst(),
                #[trigger] stack[k],
            ) || exists|slot: int|
                0 <= slot < result_count(s.module, inst) && stack[k] == s.next_reg(slot),
    ensures
        partial_ok(s.emit(inst).with_stack(stack)),
{
    let t = s.emit(inst).with_stack(stack);
    let at = s.next_inst();
    lemma_emit_built(s, inst, stack);
    lemma_kept(s, t);
    assert(t.func.blocks[s.cur].insts == s.func.blocks[s.cur].insts.push(inst));
    assert forall|b: int, i: int|
        0 <= b < t.func.blocks.len() && 0 <= i < t.func.blocks[b].insts.len() implies #[trigger] inst_ok_in(
        t.module,
        t.func,
        t.module.len() as int,
        b,
        i,
    ) by {
        if b == s.cur && i == at {
        } else {
            if b != s.cur {
                assert(t.func.blocks[b] == s.func.blocks[b]);
            }
            assert(0 <= i < s.func.blocks[b].insts.len());
        }
    }
    assert forall|b: int| 0 <= b < t.func.blocks.len() implies t.func.blocks[b].term is Open
        || #[trigger] term_ok_in(t.module, t.func, b) by {
        if b != s.cur {
            assert(0 <= b < s.func.blocks.len() && b != s.cur);
        }
    }
    assert(t.func.blocks[s.cur].insts.len() <= usize::MAX);
    assert forall|k: int| 0 <= k < stack.len() implies value_ok(
        t.module,
        t.func,
        t.cur,
        at + 1,
        #[trigger] stack[k],
    ) by {
        if value_ok(s.module, s.func, s.cur, at, stack[k]) {
            lemma_value_stays(s.module, s.func, s.cur, at, t.module, t.func, s.cur, at + 1, stack[k]);
        } else {
            let slot = choose|slot: int|
                0 <= slot < result_count(s.module, inst) && stack[k] == s.next_reg(slot);
            assert(t.func.blocks[s.cur].insts[at] == inst);
            assert(slot <= usize::MAX) by {
                match inst {
                    InstView::Call { callee, .. } => {
                        assert(t.module[callee].results.len() <= usize::MAX);
                    },
                    _ => {},
                }
            }
        }
    }
}

/// Pushing, dropping, copying and exchanging values that are defined
/// keeps the state well formed.
pub proof fn lemma_restack_ok(s: GenState, stack: Seq<Value>)
    requires
        partial_ok(s),
        forall|k: int|
            0 <= k < stack.len() ==> value_ok(
                s.module,
                s.func,
                s.cur,
                s.next_inst(),
                #[trigger] stack[k],
            ),
    ensures
        partial_ok(s.with_stack(stack)),
{
}

/// A two-operand instruction keeps the state well formed.
pub proof fn lemma_binary_ok(s: GenState, op: BinOp)
    requires
        state_ok(s),
        partial_ok(s),
        s.stack.len() >= 2,
        sizes_fit(s.binary(op)),
    ensures
        partial_ok(s.binary(op)),
{
    let n = s.stack.len() as int;
    let inst = InstView::Binary { op, lhs: s.stack[n - 2], rhs: s.stack[n - 1] };
    let stack = s.stack.take(n - 2).push(s.next_reg(0));
    let t = s.emit(inst);
    lemma_emit_built(s, inst, stack);
    lemma_kept(s, t);
    assert(t.func.blocks[s.cur].insts[s.next_inst()] == inst);
    assert(sizes_fit(t)) by {
        assert(t.func == s.binary(op).func);
        assert(t.module == s.binary(op).module);
    }
    lemma_value_stays(
        s.module,
        s.func,
        s.cur,
        s.next_inst(),
        t.module,
        t.func,
        s.cur,
        s.next_inst(),
        s.stack[n - 2],
    );
    lemma_value_stays(
        s.module,
        s.func,
        s.cur,
        s.next_inst(),
        t.module,
        t.func,
        s.cur,
        s.next_inst(),
        s.stack[n - 1],
    );
    assert forall|k: int| 0 <= k < stack.len() implies value_ok(
        s.module,
        s.func,
        s.cur,
        s.next_inst(),
        #[trigger] stack[k],
    ) || exists|slot: int|
        0 <= slot < result_count(s.module, inst) && stack[k] == s.next_reg(slot) by {
        if k < n - 2 {
            assert(stack[k] == s.stack[k]);
        } else {
            assert(stack[k] == s.next_reg(0));
        }
    }
    lemma_emit_ok(s, inst, stack);
}

/// A division with remainder keeps the state well formed.
pub proof fn lemma_divide_ok(s: GenState, quotient: BinOp, remainder: BinOp)
    requires
        state_ok(s),
        partial_ok(s),
        s.stack.len() >= 2,
        sizes_fit(s.divide(quotient, remainder)),
    ensures
        partial_ok(s.divide(quotient, remainder)),
{
    let n = s.stack.len() as int;
    let x = s.stack[n - 2];
    let y = s.stack[n - 1];
    let first_inst = InstView::Binary { op: quotient, lhs: x, rhs: y };
    let second_inst = InstView::Binary { op: remainder, lhs: x, rhs: y };
    let first = s.emit(first_inst);
    let kept = s.stack.push(s.next_reg(0));
    let mid = first.with_stack(kept);
    let t = s.divide(quotient, remainder);
    lemma_emit_built(s, first_inst, kept);
    lemma_emit_built(mid, second_inst, t.stack);
    assert(t == mid.emit(second_inst).with_stack(t.stack));
    lemma_sizes_fit(mid, t);
    lemma_kept(s, first);
    assert(first.func.blocks[s.cur].insts[s.next_inst()] == first_inst);
    lemma_value_stays(
        s.module,
        s.func,
        s.cur,
        s.next_inst(),
        first.module,
        first.func,
        s.cur,
        s.next_inst(),
        x,
    );
    lemma_value_stays(
        s.module,
        s.func,
        s.cur,
        s.next_inst(),
        first.module,
        first.func,
        s.cur,
        s.next_inst(),
        y,
    );
    assert forall|k: int| 0 <= k < kept.len() implies value_ok(
        s.module,
        s.func,
        s.cur,
        s.next_inst(),
        #[trigger] kept[k],
    ) || exists|slot: int|
        0 <= slot < result_count(s.module, first_inst) && kept[k] == s.next_reg(slot) by {
        if k < n {
            assert(kept[k] == s.stack[k]);
        } else {
            assert(kept[k] == s.next_reg(0));
        }
    }
    lemma_emit_ok(s, first_inst, kept);
    // The second instruction, on the state behind the first.
    let second = mid.emit(second_inst);
    lemma_kept(mid, second);
    assert(second.func.blocks[mid.cur].insts[mid.next_inst()] == second_inst);
    assert(value_ok(mid.module, mid.func, mid.cur, mid.next_inst(), x)) by {
        assert(kept[n - 2] == x);
    }
    assert(value_ok(mid.module, mid.func, mid.cur, mid.next_inst(), y)) by {
        assert(kept[n - 1] == y);
    }
    lemma_value_stays(
        mid.module,
        mid.func,
        mid.cur,
        mid.next_inst(),
        second.module,
        second.func,
        mid.cur,
        mid.next_inst(),
        x,
    );
    lemma_value_stays(
        mid.module,
        mid.func,
        mid.cur,
        mid.next_inst(),
        second.module,
        second.func,
        mid.cur,
        mid.next_inst(),
        y,
    );
    assert forall|k: int| 0 <= k < t.stack.len() implies value_ok(
        mid.module,
        mid.func,
        mid.cur,
        mid.next_inst(),
        #[trigger] t.stack[k],
    ) || exists|slot: int|
        0 <= slot < result_count(mid.module, second_inst) && t.stack[k] == mid.next_reg(slot) by {
        if k < n - 2 {
            assert(t.stack[k] == kept[k]);
        } else if k == n - 2 {
            assert(t.stack[k] == kept[n]);
        } else {
            assert(t.stack[k] == mid.next_reg(0));
        }
    }
    lemma_emit_ok(mid, second_inst, t.stack);
}

/// A call of a function of the module keeps the state well formed.
pub proof fn lemma_call_ok(s: GenState, f: int)
    requires
        state_ok(s),
        partial_ok(s),
        0 <= f < s.module.len(),
        s.stack.len() >= s.module[f].params.len(),
        sizes_fit(s.call(f)),
    ensures
        partial_ok(s.call(f)),
{
    let n = s.stack.len() as int;
    let arity = s.module[f].params.len() as int;
    let operands = s.stack.subrange(n - arity, n);
    let inst = InstView::Call { callee: f, args: operands };
    let results = Seq::new(s.module[f].results.len(), |k: int| s.next_reg(k));
    let stack = s.stack.take(n - arity) + results;
    let t = s.emit(inst);
    lemma_emit_built(s, inst, stack);
    lemma_kept(s, t);
    assert(t.func.blocks[s.cur].insts[s.next_inst()] == inst);
    assert(sizes_fit(t)) by {
        assert(t.func == s.call(f).func);
        assert(t.module == s.call(f).module);
    }
    assert forall|k: int| 0 <= k < operands.len() implies value_ok(
        t.module,
        t.func,
        s.cur,
        s.next_inst(),
        #[trigger] operands[k],
    ) by {
        assert(operands[k] == s.stack[n - arity + k]);
        lemma_value_stays(
            s.module,
            s.func,
            s.cur,
            s.next_inst(),
            t.module,
            t.func,
            s.cur,
            s.next_inst(),
            s.stack[n - arity + k],
        );
    }
    assert forall|k: int| 0 <= k < stack.len() implies value_ok(
        s.module,
        s.func,
        s.cur,
        s.next_inst(),
        #[trigger] stack[k],
    ) || exists|slot: int|
        0 <= slot < result_count(s.module, inst) && stack[k] == s.next_reg(slot) by {
        if k < n - arity {
            assert(stack[k] == s.stack[k]);
        } else {
            assert(stack[k] == s.next_reg(k - (n - arity)));
        }
    }
    lemma_emit_ok(s, inst, stack);
}

/// The blocks that were added have an end, all but the current one, and
/// so has the block that was current, unless it still is.
pub open spec fn closes(s: GenState, t: GenState) -> bool {
    &&& forall|b: int|
        s.func.blocks.len() <= b < t.func.blocks.len() && b != t.cur ==> !((
        #[trigger] t.func.blocks[b]).term is Open)
    &&& t.cur != s.cur ==> !(t.func.blocks[s.cur].term is Open)
}

/// The positions of the state and the lengths in its module fit in
/// machine words.
pub open spec fn all_fit(s: GenState) -> bool {
    sizes_fit(s) && module_fits(s.module)
}

/// A state on which one that fits is built fits too.
pub proof fn lemma_all_fit(s: GenState, t: GenState)
    requires
        state_ok(s),
        built_on(s, t),
        all_fit(t),
    ensures
        all_fit(s),
{
    lemma_sizes_fit(s, t);
    assert forall|f: int| 0 <= f < s.module.len() implies {
        &&& (#[trigger] s.module[f]).params.len() <= usize::MAX
        &&& s.module[f].results.len() <= usize::MAX
        &&& s.module[f].blocks.len() <= usize::MAX
        &&& forall|b: int|
            0 <= b < s.module[f].blocks.len() ==> (#[trigger] s.module[f].blocks[b]).insts.len()
                <= usize::MAX
    } by {
        assert(t.module[f] == s.module[f]);
    }
}

/// A function that is well formed stays so when functions are added
/// behind those of the module.
pub proof fn lemma_function_stays(module: Seq<FunctionView>, module2: Seq<FunctionView>, f: int)
    requires
        0 <= f < module.len(),
        function_ok(module, f),
        module.is_prefix_of(module2),
    ensures
        function_ok(module2, f),
{
    let func = module[f];
    assert(module2[f] == func);
    assert(keeps_insts(func, func)) by {
        assert forall|b: int| 0 <= b < func.blocks.len() implies (#[trigger] func.blocks[b]).insts.is_prefix_of(
            func.blocks[b].insts,
        ) by {}
    }
    assert(calls_within(module, func)) by {
        assert forall|b: int, i: int|
            0 <= b < func.blocks.len() && 0 <= i < func.blocks[b].insts.len() implies (
        #[trigger] func.blocks[b].insts[i] matches InstView::Call { callee, .. } ==> 0 <= callee
            < module.len()) by {
            assert(block_ok(module, f, b));
            assert(inst_ok(module, f, b, i));
        }
    }
    assert forall|b: int| 0 <= b < func.blocks.len() implies #[trigger] block_ok(module2, f, b) by {
        assert(block_ok(module, f, b));
        assert forall|i: int| 0 <= i < func.blocks[b].insts.len() implies #[trigger] inst_ok(
            module2,
            f,
            b,
            i,
        ) by {
            assert(inst_ok(module, f, b, i));
            lemma_inst_stays(module, func, f, module2, func, f, b, i);
        }
        let end = func.blocks[b].insts.len() as int;
        match func.blocks[b].term {
            TermView::Return(values) => {
                lemma_values_stay(module, func, b, end, module2, func, b, end, values);
            },
            TermView::Branch { cond, .. } => {
                lemma_value_stays(module, func, b, end, module2, func, b, end, cond);
            },
            _ => {},
        }
    }
}

/// A module that is well formed stays so when a well-formed function is
/// added behind its functions.
pub proof fn lemma_module_grows(module: Seq<FunctionView>, func: FunctionView)
    requires
        well_formed(module),
        function_ok(module.push(func), module.len() as int),
    ensures
        well_formed(module.push(func)),
{
    let bigger = module.push(func);
    assert(module.is_prefix_of(bigger));
    assert forall|f: int| 0 <= f < bigger.len() implies #[trigger] function_ok(bigger, f) by {
        if f < module.len() {
            assert(function_ok(module, f));
            lemma_function_stays(module, bigger, f);
        }
    }
}

/// The state stays well formed when the module grows and stays well
/// formed.
pub proof fn lemma_module_grown_ok(s: GenState, module: Seq<FunctionView>)
    requires
        state_ok(s),
        partial_ok(s),
        s.module.is_prefix_of(module),
        well_formed(module),
    ensures
        partial_ok(GenState { module, ..s }),
        state_ok(GenState { module, ..s }),
{
    let t = GenState { module, ..s };
    assert(built_on(s, t)) by {
        assert(s.func.blocks[s.cur].insts.is_prefix_of(t.func.blocks[s.cur].insts));
    }
    lemma_kept(s, t);
    lemma_values_stay(
        s.module,
        s.func,
        s.cur,
        s.next_inst(),
        t.module,
        t.func,
        s.cur,
        s.next_inst(),
        s.stack,
    );
}

/// Opening a conditional keeps the state well formed.
pub proof fn lemma_open_branch_ok(s: GenState)
    requires
        state_ok(s),
        partial_ok(s),
        s.stack.len() >= 1,
    ensures
        partial_ok(s.open_branch()),
{
    let t = s.open_branch();
    lemma_open_branch_built(s);
    lemma_calls_within(s);
    assert(keeps_insts(s.func, t.func)) by {
        assert forall|b: int| 0 <= b < s.func.blocks.len() implies (#[trigger] s.func.blocks[b]).insts.is_prefix_of(
            t.func.blocks[b].insts,
        ) by {
            assert(t.func.blocks[b] == s.func.blocks[b]);
        }
    }
    assert(s.module.is_prefix_of(t.module));
    assert forall|b: int, i: int|
        0 <= b < t.func.blocks.len() && 0 <= i < t.func.blocks[b].insts.len() implies #[trigger] inst_ok_in(
        t.module,
        t.func,
        t.module.len() as int,
        b,
        i,
    ) by {
        if b < s.func.blocks.len() {
            assert(t.func.blocks[b] == s.func.blocks[b]);
            assert(inst_ok_in(s.module, s.func, s.module.len() as int, b, i));
            lemma_inst_stays(
                s.module,
                s.func,
                s.module.len() as int,
                t.module,
                t.func,
                t.module.len() as int,
                b,
                i,
            );
        }
    }
    assert forall|b: int| 0 <= b < t.func.blocks.len() implies t.func.blocks[b].term is Open
        || #[trigger] term_ok_in(t.module, t.func, b) by {
        if b < s.func.blocks.len() {
            assert(t.func.blocks[b] == s.func.blocks[b]);
            if !(s.func.blocks[b].term is Open) {
                assert(term_ok_in(s.module, s.func, b));
                let end = s.func.blocks[b].insts.len() as int;
                match s.func.blocks[b].term {
                    TermView::Branch { cond, .. } => {
                        lemma_value_stays(s.module, s.func, b, end, t.module, t.func, b, end, cond);
                    },
                    _ => {},
                }
            }
        }
    }
    assert forall|k: int| 0 <= k < t.stack.len() implies value_ok(
        t.module,
        t.func,
        t.cur,
        0,
        #[trigger] t.stack[k],
    ) by {
        assert(t.stack[k] == s.stack[k]);
        lemma_value_stays(
            s.module,
            s.func,
            s.cur,
            s.next_inst(),
            t.module,
            t.func,
            t.cur,
            0,
            s.stack[k],
        );
    }
}

/// Closing a conditional keeps the state well formed, and gives every
/// block of the conditional an end.
pub proof fn lemma_close_branch_ok(s: GenState, after: GenState)
    requires
        state_ok(s),
        partial_ok(s),
        s.stack.len() >= 1,
        state_ok(after),
        partial_ok(after),
        built_on(s.open_branch(), after),
        closes(s.open_branch(), after),
        after.stack == s.open_branch().stack,
    ensures
        partial_ok(after.close_branch(s.cur, s.stack.last(), s.open_branch().cur)),
        closes(s, after.close_branch(s.cur, s.stack.last(), s.open_branch().cur)),
{
    let inner = s.open_branch();
    let cond = s.stack.last();
    let t = after.close_branch(s.cur, cond, inner.cur);
    let from = s.cur;
    let then_block = s.func.blocks.len() as int;
    let else_block = after.func.blocks.len() as int;
    let cont_block = else_block + 1;
    lemma_open_branch_built(s);
    lemma_close_branch_built(s, after);
    lemma_calls_within(after);
    lemma_calls_within(s);
    assert(after.func.blocks[from] == inner.func.blocks[from]);
    assert(inner.func.blocks[from] == s.func.blocks[from]);
    assert(then_block <= after.cur < else_block);
    assert(keeps_insts(after.func, t.func)) by {
        assert forall|b: int| 0 <= b < after.func.blocks.len() implies (#[trigger]
            after.func.blocks[b]).insts.is_prefix_of(t.func.blocks[b].insts) by {
            assert(t.func.blocks[b].insts == after.func.blocks[b].insts);
        }
    }
    assert(keeps_insts(s.func, after.func)) by {
        assert forall|b: int| 0 <= b < s.func.blocks.len() implies (#[trigger] s.func.blocks[b]).insts.is_prefix_of(
            after.func.blocks[b].insts,
        ) by {
            assert(after.func.blocks[b] == inner.func.blocks[b]);
            assert(inner.func.blocks[b] == s.func.blocks[b]);
        }
    }
    assert(after.module.is_prefix_of(t.module));
    assert forall|b: int, i: int|
        0 <= b < t.func.blocks.len() && 0 <= i < t.func.blocks[b].insts.len() implies #[trigger] inst_ok_in(
        t.module,
        t.func,
        t.module.len() as int,
        b,
        i,
    ) by {
        assert(b < else_block);
        assert(t.func.blocks[b].insts == after.func.blocks[b].insts);
        assert(inst_ok_in(after.module, after.func, after.module.len() as int, b, i));
        lemma_inst_stays(
            after.module,
            after.func,
            after.module.len() as int,
            t.module,
            t.func,
            t.module.len() as int,
            b,
            i,
        );
    }
    // The condition is defined at the end of the block that branches.
    let end = s.func.blocks[from].insts.len() as int;
    assert(value_ok(s.module, s.func, from, end, cond)) by {
        assert(cond == s.stack[s.stack.len() - 1]);
    }
    lemma_value_stays(s.module, s.func, from, end, after.module, after.func, from, end, cond);
    lemma_value_stays(after.module, after.func, from, end, t.module, t.func, from, end, cond);
    assert forall|b: int| 0 <= b < t.func.blocks.len() implies t.func.blocks[b].term is Open
        || #[trigger] term_ok_in(t.module, t.func, b) by {
        if b == from {
        } else if b == after.cur {
        } else if b == else_block {
        } else if b == cont_block {
        } else {
            assert(t.func.blocks[b] == after.func.blocks[b]);
            if !(after.func.blocks[b].term is Open) {
                assert(term_ok_in(after.module, after.func, b));
                let e = after.func.blocks[b].insts.len() as int;
                match after.func.blocks[b].term {
                    TermView::Branch { cond: c, .. } => {
                        lemma_value_stays(after.module, after.func, b, e, t.module, t.func, b, e, c);
                    },
                    TermView::Return(values) => {
                        lemma_values_stay(
                            after.module,
                            after.func,
                            b,
                            e,
                            t.module,
                            t.func,
                            b,
                            e,
                            values,
                        );
                    },
                    _ => {},
                }
            }
        }
    }
    assert forall|k: int| 0 <= k < t.stack.len() implies value_ok(
        t.module,
        t.func,
        t.cur,
        0,
        #[trigger] t.stack[k],
    ) by {
        assert(t.stack[k] == s.stack[k]);
        lemma_value_stays(s.module, s.func, from, end, after.module, after.func, from, end, s.stack[k]);
        lemma_value_stays(
            after.module,
            after.func,
            from,
            end,
            t.module,
            t.func,
            t.cur,
            0,
            s.stack[k],
        );
    }
    assert forall|b: int| s.func.blocks.len() <= b < t.func.blocks.len() && b != t.cur implies !((
    #[trigger] t.func.blocks[b]).term is Open) by {
        if b < else_block && b != after.cur {
            if b == then_block {
                assert(after.cur != inner.cur);
            } else {
                assert(inner.func.blocks.len() <= b);
            }
            assert(!(after.func.blocks[b].term is Open));
            assert(t.func.blocks[b] == after.func.blocks[b]);
        }
    }
}

/// Compiling operations keeps the state well formed.
pub proof fn lemma_ops_ok(
    defs: Seq<DefView>,
    active: Seq<Seq<char>>,
    s: GenState,
    ops: Seq<OpView>,
    from: int,
)
    requires
        state_ok(s),
        partial_ok(s),
        gen_ops(defs, active, s, ops, from) is Ok,
        all_fit(gen_ops(defs, active, s, ops, from)->Ok_0),
    ensures
        partial_ok(gen_ops(defs, active, s, ops, from)->Ok_0),
        closes(s, gen_ops(defs, active, s, ops, from)->Ok_0),
    decreases level(defs, active), ops, ops.len() - from,
{
    if from < 0 || from >= ops.len() {
    } else {
        let next = gen_op(defs, active, s, ops[from], from)->Ok_0;
        let t = gen_ops(defs, active, next, ops, from + 1)->Ok_0;
        lemma_op_built(defs, active, s, ops[from], from);
        lemma_ops_built(defs, active, next, ops, from + 1);
        lemma_all_fit(next, t);
        lemma_op_ok(defs, active, s, ops[from], from);
        lemma_ops_ok(defs, active, next, ops, from + 1);
        assert forall|b: int| s.func.blocks.len() <= b < t.func.blocks.len() && b != t.cur implies !((
        #[trigger] t.func.blocks[b]).term is Open) by {
            if b < next.func.blocks.len() {
                if b != next.cur {
                    assert(!(next.func.blocks[b].term is Open));
                    assert(t.func.blocks[b] == next.func.blocks[b]);
                }
            }
        }
        if t.cur != s.cur {
            if next.cur != s.cur {
                assert(t.func.blocks[s.cur] == next.func.blocks[s.cur]);
            }
        }
    }
}

/// Compiling one operation keeps the state well formed.
pub proof fn lemma_op_ok(
    defs: Seq<DefView>,
    active: Seq<Seq<char>>,
    s: GenState,
    op: OpView,
    at: int,
)
    requires
        state_ok(s),
        partial_ok(s),
        gen_op(defs, active, s, op, at) is Ok,
        all_fit(gen_op(defs, active, s, op, at)->Ok_0),
    ensures
        partial_ok(gen_op(defs, active, s, op, at)->Ok_0),
        closes(s, gen_op(defs, active, s, op, at)->Ok_0),
    decreases level(defs, active), op, 0nat,
{
    let t = gen_op(defs, active, s, op, at)->Ok_0;
    let n = s.stack.len() as int;
    match op {
        OpView::Integer(k) => {
            lemma_restack_ok(s, s.stack.push(Value::Const(k)));
        },
        OpView::Drop => {
            lemma_restack_ok(s, s.stack.drop_last());
        },
        OpView::Dup => {
            lemma_restack_ok(s, s.stack.push(s.stack.last()));
        },
        OpView::Swap => {
            lemma_restack_ok(s, s.stack.take(n - 2).push(s.stack[n - 1]).push(s.stack[n - 2]));
        },
        OpView::Add => {
            lemma_binary_ok(s, BinOp::Add);
        },
        OpView::Sub => {
            lemma_binary_ok(s, BinOp::Sub);
        },
        OpView::Mul => {
            lemma_binary_ok(s, BinOp::Mul);
        },
        OpView::Equal => {
            lemma_binary_ok(s, BinOp::Eq);
        },
        OpView::DivMod => {
            lemma_divide_ok(s, BinOp::UDiv, BinOp::URem);
        },
        OpView::IDivMod => {
            lemma_divide_ok(s, BinOp::SDiv, BinOp::SRem);
        },
        OpView::Print => {
            let f = find_function(s.module, print_name(), 0)->Some_0;
            lemma_find_function(s.module, print_name(), 0);
            lemma_call_ok(s, f);
        },
        OpView::If(body) => {
            let inner = s.open_branch();
            let after = gen_ops(defs, active, inner, body, 0)->Ok_0;
            lemma_open_branch_built(s);
            lemma_open_branch_ok(s);
            lemma_ops_built(defs, active, inner, body, 0);
            lemma_close_branch_built(s, after);
            lemma_sizes_fit_after(s, after, t);
            assert(after.module == t.module);
            lemma_ops_ok(defs, active, inner, body, 0);
            lemma_close_branch_ok(s, after);
        },
        OpView::Word(w) => {
            match find_function(s.module, w, 0) {
                Some(f) => {
                    lemma_find_function(s.module, w, 0);
                    lemma_call_ok(s, f);
                },
                None => match find_const(defs, w, 0) {
                    Some(c) => {
                        lemma_find_const(defs, w, 0);
                        lemma_remaining_enter(defs, active, w, c);
                        lemma_ops_ok(defs, active.push(w), s, defs[c]->Const_0.ops, 0);
                    },
                    None => {
                        let p = find_proc(defs, w, 0)->Some_0;
                        lemma_find_proc(defs, w, 0);
                        lemma_remaining_enter(defs, active, w, p);
                        lemma_proc_built(defs, active.push(w), s, defs[p]->Proc_0);
                        let after = gen_proc(defs, active.push(w), s, defs[p]->Proc_0)->Ok_0;
                        let f = find_function(after.module, w, 0)->Some_0;
                        lemma_find_function(after.module, w, 0);
                        lemma_call_built(after, f);
                        lemma_all_fit(after, t);
                        lemma_proc_ok(defs, active.push(w), s, defs[p]->Proc_0);
                        assert(after == (GenState { module: after.module, ..s }));
                        lemma_module_grown_ok(s, after.module);
                        lemma_call_ok(after, f);
                    },
                },
            }
        },
    }
}

/// Compiling a procedure keeps the module well formed.
pub proof fn lemma_proc_ok(
    defs: Seq<DefView>,
    active: Seq<Seq<char>>,
    s: GenState,
    proc: ProcView,
)
    requires
        well_formed(s.module),
        gen_proc(defs, active, s, proc) is Ok,
        module_fits(gen_proc(defs, active, s, proc)->Ok_0.module),
    ensures
        well_formed(gen_proc(defs, active, s, proc)->Ok_0.module),
    decreases level(defs, active) + 1, proc.ops, 0nat,
{
    let t = gen_proc(defs, active, s, proc)->Ok_0;
    let start = s.open_proc(proc);
    let body = gen_ops(defs, active, start, proc.ops, 0)->Ok_0;
    let finished = body.finished(proc.outputs);
    let module = t.module;
    let at = body.module.len() as int;
    assert(module == body.module.push(finished));
    assert(module[at] == finished);
    assert(body.module.is_prefix_of(module));
    lemma_open_proc_ok(s, proc);
    lemma_ops_built(defs, active, start, proc.ops, 0);
    lemma_finished(start, body, proc.outputs);
    // The state at the end of the body fits in machine words.
    assert(all_fit(body)) by {
        assert(module[at].blocks.len() <= usize::MAX);
        assert forall|b: int| 0 <= b < body.func.blocks.len() implies (#[trigger]
            body.func.blocks[b]).insts.len() <= usize::MAX by {
            assert(finished.blocks[b].insts.len() <= usize::MAX);
            assert(finished.blocks[b].insts == body.func.blocks[b].insts);
        }
        assert forall|f: int| 0 <= f < body.module.len() implies {
            &&& (#[trigger] body.module[f]).params.len() <= usize::MAX
            &&& body.module[f].results.len() <= usize::MAX
            &&& body.module[f].blocks.len() <= usize::MAX
            &&& forall|b: int|
                0 <= b < body.module[f].blocks.len() ==> (#[trigger]
                body.module[f].blocks[b]).insts.len() <= usize::MAX
        } by {
            assert(module[f] == body.module[f]);
        }
    }
    // The state at the start of the body is well formed.
    assert(partial_ok(start)) by {
        assert(proc.inputs.len() <= usize::MAX);
        assert forall|k: int| 0 <= k < start.stack.len() implies value_ok(
            start.module,
            start.func,
            start.cur,
            0,
            #[trigger] start.stack[k],
        ) by {
            assert(start.stack[k] == Value::Param(k as usize));
        }
    }
    lemma_ops_ok(defs, active, start, proc.ops, 0);
    lemma_calls_within(body);
    assert(keeps_insts(body.func, finished)) by {
        assert forall|b: int| 0 <= b < body.func.blocks.len() implies (#[trigger]
            body.func.blocks[b]).insts.is_prefix_of(finished.blocks[b].insts) by {
            assert(finished.blocks[b].insts == body.func.blocks[b].insts);
        }
    }
    assert forall|b: int| 0 <= b < finished.blocks.len() implies #[trigger] block_ok(module, at, b) by {
        assert(finished.blocks[b].insts == body.func.blocks[b].insts);
        assert forall|i: int| 0 <= i < finished.blocks[b].insts.len() implies #[trigger] inst_ok(
            module,
            at,
            b,
            i,
        ) by {
            assert(inst_ok_in(body.module, body.func, at, b, i));
            lemma_inst_stays(body.module, body.func, at, module, finished, at, b, i);
        }
        let end = body.func.blocks[b].insts.len() as int;
        if b == body.cur {
            lemma_values_stay(
                body.module,
                body.func,
                b,
                end,
                module,
                finished,
                b,
                end,
                body.stack,
            );
        } else {
            assert(finished.blocks[b] == body.func.blocks[b]);
            if b == 0 {
                assert(body.cur != start.cur);
            } else {
                assert(start.func.blocks.len() <= b);
            }
            assert(!(body.func.blocks[b].term is Open));
            assert(term_ok_in(body.module, body.func, b));
            match body.func.blocks[b].term {
                TermView::Branch { cond, .. } => {
                    lemma_value_stays(body.module, body.func, b, end, module, finished, b, end, cond);
                },
                _ => {},
            }
        }
    }
    lemma_module_grows(body.module, finished);
}

/// The state of a new generator is well formed.
pub proof fn lemma_initial_ok()
    ensures
        state_ok(GenState::initial()),
        partial_ok(GenState::initial()),
{
    let s = GenState::initial();
    assert(s.func.blocks.len() == 1);
    assert(s.func.blocks[0] == BlockView::empty());
    assert(s.module.len() == 1);
    assert(s.module[0].blocks.len() == 0);
    assert(function_ok(s.module, 0));
    assert forall|b: int| 0 <= b < s.func.blocks.len() implies #[trigger] crate::simulation::target_ok(
        s.func,
        b,
    ) by {}
}

/// The state at the start of a procedure is well formed where the module
/// is.
pub proof fn lemma_open_proc_partial_ok(s: GenState, proc: ProcView)
    requires
        well_formed(s.module),
        proc.inputs.len() <= usize::MAX,
    ensures
        partial_ok(s.open_proc(proc)),
{
    let start = s.open_proc(proc);
    lemma_open_proc_ok(s, proc);
    assert forall|k: int| 0 <= k < start.stack.len() implies value_ok(
        start.module,
        start.func,
        start.cur,
        0,
        #[trigger] start.stack[k],
    ) by {
        assert(start.stack[k] == Value::Param(k as usize));
    }
}

/// A module that was well formed is well formed after a procedure has been
/// compiled into it.
pub proof fn compiled_module_is_well_formed(
    defs: Seq<DefView>,
    active: Seq<Seq<char>>,
    s: GenState,
    proc: ProcView,
)
    requires
        well_formed(s.module),
        gen_entry(defs, active, s, proc) is Ok,
        module_fits(gen_entry(defs, active, s, proc)->Ok_0.module),
    ensures
        well_formed(gen_entry(defs, active, s, proc)->Ok_0.module),
{
    if find_function(s.module, proc.name, 0) is None {
        lemma_proc_ok(defs, active.push(proc.name), s, proc);
    }
}

} // verus!
