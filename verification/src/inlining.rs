//! A reference to a constant compiles as the constant's operations do when
//! they are written in its place.

use vstd::prelude::*;
use crate::ast::{DefView, OpView, ProcView};
use crate::generation::{
    find_const, find_proc, gen_op, gen_ops, gen_proc, lemma_find_const, lemma_find_proc,
    lemma_remaining_enter, level, CompileErrorView, GenState,
};
use crate::ir::{find_function, FunctionView};
use crate::simulation::{
    lemma_built_extends, lemma_op_built, lemma_open_branch_built, lemma_ops_built, lemma_scope_lacks,
    lemma_scope_push, scope_within, state_ok,
};

verus! {

/// The state that a result holds, where it holds one.
pub open spec fn success(result: Result<GenState, CompileErrorView>) -> Option<GenState> {
    match result {
        Ok(s) => Some(s),
        Err(_) => None,
    }
}

/// Where an operation stands in its sequence bears on the failure that is
/// reported, and on nothing else.
pub proof fn lemma_index_is_free(
    defs: Seq<DefView>,
    active: Seq<Seq<char>>,
    s: GenState,
    op: OpView,
    at: int,
    other: int,
)
    ensures
        success(gen_op(defs, active, s, op, at)) == success(gen_op(defs, active, s, op, other)),
{
}

/// Compiling a sequence from an index on is compiling the rest of the
/// sequence.
pub proof fn lemma_rest(
    defs: Seq<DefView>,
    active: Seq<Seq<char>>,
    s: GenState,
    ops: Seq<OpView>,
    from: int,
)
    requires
        0 <= from <= ops.len(),
    ensures
        success(gen_ops(defs, active, s, ops, from)) == success(
            gen_ops(defs, active, s, ops.skip(from), 0),
        ),
    decreases ops.len() - from,
{
    let rest = ops.skip(from);
    if from < ops.len() {
        assert(rest[0] == ops[from]);
        lemma_index_is_free(defs, active, s, ops[from], from, 0);
        match gen_op(defs, active, s, ops[from], from) {
            Ok(next) => {
                lemma_rest(defs, active, next, ops, from + 1);
                lemma_rest(defs, active, next, rest, 1);
                assert(rest.skip(1) =~= ops.skip(from + 1));
            },
            Err(_) => {},
        }
    }
}

/// Compiling two sequences one after the other is compiling the first
/// and then, from the state that it leaves, the second.
pub proof fn lemma_sequence(
    defs: Seq<DefView>,
    active: Seq<Seq<char>>,
    s: GenState,
    first: Seq<OpView>,
    second: Seq<OpView>,
)
    ensures
        success(gen_ops(defs, active, s, first + second, 0)) == (match success(
            gen_ops(defs, active, s, first, 0),
        ) {
            Some(middle) => success(gen_ops(defs, active, middle, second, 0)),
            None => None,
        }),
    decreases first.len(),
{
    let whole = first + second;
    if first.len() == 0 {
        assert(whole =~= second);
    } else {
        assert(whole[0] == first[0]);
        match gen_op(defs, active, s, first[0], 0) {
            Ok(next) => {
                lemma_rest(defs, active, next, whole, 1);
                lemma_rest(defs, active, next, first, 1);
                assert(whole.skip(1) =~= first.skip(1) + second);
                lemma_sequence(defs, active, next, first.skip(1), second);
            },
            Err(_) => {},
        }
    }
}

/// What compiles while some definitions are being compiled compiles to
/// the same while fewer are.
pub proof fn lemma_ops_fewer(
    defs: Seq<DefView>,
    active: Seq<Seq<char>>,
    fewer: Seq<Seq<char>>,
    s: GenState,
    ops: Seq<OpView>,
    from: int,
)
    requires
        scope_within(fewer, active),
        gen_ops(defs, active, s, ops, from) is Ok,
    ensures
        gen_ops(defs, fewer, s, ops, from) == Ok::<GenState, CompileErrorView>(
            gen_ops(defs, active, s, ops, from)->Ok_0,
        ),
    decreases level(defs, active), ops, ops.len() - from,
{
    if from < 0 || from >= ops.len() {
    } else {
        let next = gen_op(defs, active, s, ops[from], from)->Ok_0;
        lemma_op_fewer(defs, active, fewer, s, ops[from], from);
        lemma_ops_fewer(defs, active, fewer, next, ops, from + 1);
    }
}

/// An operation that compiles while some definitions are being compiled
/// compiles to the same while fewer are.
pub proof fn lemma_op_fewer(
    defs: Seq<DefView>,
    active: Seq<Seq<char>>,
    fewer: Seq<Seq<char>>,
    s: GenState,
    op: OpView,
    at: int,
)
    requires
        scope_within(fewer, active),
        gen_op(defs, active, s, op, at) is Ok,
    ensures
        gen_op(defs, fewer, s, op, at) == Ok::<GenState, CompileErrorView>(
            gen_op(defs, active, s, op, at)->Ok_0,
        ),
    decreases level(defs, active), op, 0nat,
{
    match op {
        OpView::If(body) => {
            lemma_ops_fewer(defs, active, fewer, s.open_branch(), body, 0);
        },
        OpView::Word(w) => {
            match find_function(s.module, w, 0) {
                Some(f) => {},
                None => match find_const(defs, w, 0) {
                    Some(c) => {
                        lemma_find_const(defs, w, 0);
                        lemma_remaining_enter(defs, active, w, c);
                        lemma_scope_lacks(fewer, active, w);
                        lemma_scope_push(fewer, active, w);
                        lemma_ops_fewer(
                            defs,
                            active.push(w),
                            fewer.push(w),
                            s,
                            defs[c]->Const_0.ops,
                            0,
                        );
                    },
                    None => {
                        let p = find_proc(defs, w, 0)->Some_0;
                        lemma_find_proc(defs, w, 0);
                        lemma_remaining_enter(defs, active, w, p);
                        lemma_scope_lacks(fewer, active, w);
                        lemma_scope_push(fewer, active, w);
                        lemma_proc_fewer(defs, active.push(w), fewer.push(w), s, defs[p]->Proc_0);
                    },
                },
            }
        },
        _ => {},
    }
}

/// A procedure that compiles while some definitions are being compiled
/// compiles to the same while fewer are.
pub proof fn lemma_proc_fewer(
    defs: Seq<DefView>,
    active: Seq<Seq<char>>,
    fewer: Seq<Seq<char>>,
    s: GenState,
    proc: ProcView,
)
    requires
        scope_within(fewer, active),
        gen_proc(defs, active, s, proc) is Ok,
    ensures
        gen_proc(defs, fewer, s, proc) == Ok::<GenState, CompileErrorView>(
            gen_proc(defs, active, s, proc)->Ok_0,
        ),
    decreases level(defs, active) + 1, proc.ops, 0nat,
{
    lemma_ops_fewer(defs, active, fewer, s.open_proc(proc), proc.ops, 0);
}

/// A name is within a list with one more name.
pub proof fn lemma_within_pushed(active: Seq<Seq<char>>, name: Seq<char>)
    ensures
        scope_within(active, active.push(name)),
{
    assert forall|i: int| 0 <= i < active.len() implies active.push(name).contains(
        #[trigger] active[i],
    ) by {
        assert(active.push(name)[i] == active[i]);
    }
}

/// A sequence with a reference to a constant compiles to what the sequence
/// compiles to in which the constant's operations stand in place of the
/// reference: to the same module, the same function, the same stack. No
/// instruction stands for the reference itself.
pub proof fn constant_reference_is_its_operations(
    defs: Seq<DefView>,
    active: Seq<Seq<char>>,
    s: GenState,
    before: Seq<OpView>,
    word: Seq<char>,
    after: Seq<OpView>,
)
    requires
        find_const(defs, word, 0) is Some,
        gen_ops(defs, active, s, before, 0) matches Ok(reached) && find_function(
            reached.module,
            word,
            0,
        ) is None,
        gen_ops(defs, active, s, before + seq![OpView::Word(word)] + after, 0) is Ok,
    ensures
        gen_ops(
            defs,
            active,
            s,
            before + defs[find_const(defs, word, 0)->Some_0]->Const_0.ops + after,
            0,
        ) == gen_ops(defs, active, s, before + seq![OpView::Word(word)] + after, 0),
{
    let c = find_const(defs, word, 0)->Some_0;
    let body = defs[c]->Const_0.ops;
    let reference = seq![OpView::Word(word)];
    let reached = gen_ops(defs, active, s, before, 0)->Ok_0;
    lemma_sequence(defs, active, s, before + reference, after);
    lemma_sequence(defs, active, s, before, reference);
    lemma_sequence(defs, active, s, before + body, after);
    lemma_sequence(defs, active, s, before, body);
    // The reference, compiled where it stands.
    let inlined = gen_op(defs, active, reached, OpView::Word(word), 0);
    assert(gen_ops(defs, active, reached, reference, 0) == (match inlined {
        Ok(next) => gen_ops(defs, active, next, reference, 1),
        Err(e) => Err(e),
    }));
    assert(inlined is Ok);
    assert(gen_ops(defs, active, inlined->Ok_0, reference, 1) == Ok::<GenState, CompileErrorView>(
        inlined->Ok_0,
    ));
    assert(!active.contains(word));
    lemma_within_pushed(active, word);
    lemma_find_const(defs, word, 0);
    lemma_ops_fewer(defs, active.push(word), active, reached, body, 0);
}

/// The operations from index `from` on reach neither `print` nor a
/// procedure nor a function of the module: each is a literal, arithmetic,
/// a stack operation, a conditional whose body is of that kind, or a
/// reference to a constant whose operations are.
pub open spec fn plain(
    defs: Seq<DefView>,
    active: Seq<Seq<char>>,
    module: Seq<FunctionView>,
    ops: Seq<OpView>,
    from: int,
) -> bool
    decreases level(defs, active), ops, ops.len() - from,
{
    if from < 0 || from >= ops.len() {
        true
    } else {
        plain_op(defs, active, module, ops[from]) && plain(defs, active, module, ops, from + 1)
    }
}

/// The operation reaches neither `print` nor a procedure nor a function of
/// the module.
pub open spec fn plain_op(
    defs: Seq<DefView>,
    active: Seq<Seq<char>>,
    module: Seq<FunctionView>,
    op: OpView,
) -> bool
    decreases level(defs, active), op, 0nat,
{
    match op {
        OpView::Print => false,
        OpView::If(body) => plain(defs, active, module, body, 0),
        OpView::Word(w) => if find_function(module, w, 0) is Some || active.contains(w) {
            false
        } else {
            match find_const(defs, w, 0) {
                Some(c) => {
                    proof {
                        lemma_find_const(defs, w, 0);
                        lemma_remaining_enter(defs, active, w, c);
                    }
                    plain(defs, active.push(w), module, defs[c]->Const_0.ops, 0)
                },
                None => false,
            }
        },
        _ => true,
    }
}

/// Every call in the second function is one of the first: the second has
/// no call in a block, or at a place in a block, that the first lacks.
pub open spec fn calls_kept(before: FunctionView, after: FunctionView) -> bool {
    forall|b: int, i: int|
        0 <= b < after.blocks.len() && 0 <= i < after.blocks[b].insts.len() && (
        #[trigger] after.blocks[b].insts[i]) is Call ==> b < before.blocks.len() && i
            < before.blocks[b].insts.len()
}

/// Operations that reach neither `print` nor a procedure compile to
/// arithmetic alone: the module stays as it is, and the function that is
/// being built receives no call.
pub proof fn plain_operations_add_no_call(
    defs: Seq<DefView>,
    active: Seq<Seq<char>>,
    s: GenState,
    ops: Seq<OpView>,
    from: int,
)
    requires
        state_ok(s),
        plain(defs, active, s.module, ops, from),
        gen_ops(defs, active, s, ops, from) is Ok,
    ensures
        gen_ops(defs, active, s, ops, from)->Ok_0.module == s.module,
        calls_kept(s.func, gen_ops(defs, active, s, ops, from)->Ok_0.func),
    decreases level(defs, active), ops, ops.len() - from,
{
    if from < 0 || from >= ops.len() {
    } else {
        let next = gen_op(defs, active, s, ops[from], from)->Ok_0;
        let t = gen_ops(defs, active, next, ops, from + 1)->Ok_0;
        plain_operation_adds_no_call(defs, active, s, ops[from], from);
        lemma_op_built(defs, active, s, ops[from], from);
        plain_operations_add_no_call(defs, active, next, ops, from + 1);
        lemma_ops_built(defs, active, next, ops, from + 1);
        lemma_built_extends(next, t);
        assert forall|b: int, i: int|
            0 <= b < t.func.blocks.len() && 0 <= i < t.func.blocks[b].insts.len() && (
            #[trigger] t.func.blocks[b].insts[i]) is Call implies b < s.func.blocks.len() && i
            < s.func.blocks[b].insts.len() by {
            assert(b < next.func.blocks.len() && i < next.func.blocks[b].insts.len());
            assert(crate::simulation::block_extends(next.func.blocks[b], t.func.blocks[b]));
            assert(t.func.blocks[b].insts[i] == next.func.blocks[b].insts[i]);
        }
    }
}

/// An operation that reaches neither `print` nor a procedure compiles to
/// arithmetic alone. So does a reference to a constant whose operations
/// are of that kind: it adds no function and no call.
pub proof fn plain_operation_adds_no_call(
    defs: Seq<DefView>,
    active: Seq<Seq<char>>,
    s: GenState,
    op: OpView,
    at: int,
)
    requires
        state_ok(s),
        plain_op(defs, active, s.module, op),
        gen_op(defs, active, s, op, at) is Ok,
    ensures
        gen_op(defs, active, s, op, at)->Ok_0.module == s.module,
        calls_kept(s.func, gen_op(defs, active, s, op, at)->Ok_0.func),
    decreases level(defs, active), op, 0nat,
{
    let t = gen_op(defs, active, s, op, at)->Ok_0;
    match op {
        OpView::If(body) => {
            let inner = s.open_branch();
            let after = gen_ops(defs, active, inner, body, 0)->Ok_0;
            lemma_open_branch_built(s);
            plain_operations_add_no_call(defs, active, inner, body, 0);
            lemma_ops_built(defs, active, inner, body, 0);
            assert forall|b: int, i: int|
                0 <= b < t.func.blocks.len() && 0 <= i < t.func.blocks[b].insts.len() && (
                #[trigger] t.func.blocks[b].insts[i]) is Call implies b < s.func.blocks.len() && i
                < s.func.blocks[b].insts.len() by {
                assert(b < after.func.blocks.len());
                assert(t.func.blocks[b].insts == after.func.blocks[b].insts);
                assert(after.func.blocks[b].insts[i] is Call);
                assert(b < inner.func.blocks.len() && i < inner.func.blocks[b].insts.len());
                assert(b < s.func.blocks.len());
                assert(inner.func.blocks[b] == s.func.blocks[b]);
            }
        },
        OpView::Word(w) => {
            let c = find_const(defs, w, 0)->Some_0;
            lemma_find_const(defs, w, 0);
            lemma_remaining_enter(defs, active, w, c);
            plain_operations_add_no_call(defs, active.push(w), s, defs[c]->Const_0.ops, 0);
        },
        _ => {},
    }
}

} // verus!
