//! A body that refers to a word that nothing defines does not compile, and
//! where what stands before the reference compiles, the failure names the
//! word.

use vstd::prelude::*;
use crate::ast::{DefView, OpView, ProcView};
use crate::generation::{
    fault, find_const, find_proc, gen_entry, gen_op, gen_ops, gen_proc, lemma_find_const,
    lemma_find_proc, lemma_remaining_enter, level, CompileErrorView, ErrorKindView, GenState,
};
use crate::ir::{find_function, lemma_find_function, FunctionView};
use crate::refused::{mentions, op_mentions};
use crate::simulation::{
    lemma_finished, lemma_op_built, lemma_open_branch_built, lemma_open_proc_ok, lemma_ops_built,
    state_ok,
};

verus! {

/// Every function of the module from index `base` on has the name of a
/// procedure.
pub open spec fn named_after_procs(defs: Seq<DefView>, module: Seq<FunctionView>, base: int) -> bool {
    forall|f: int|
        base <= f < module.len() ==> find_proc(defs, (#[trigger] module[f]).name, 0) is Some
}

/// Compiling operations adds functions with the names of procedures only.
pub proof fn lemma_ops_named(
    defs: Seq<DefView>,
    active: Seq<Seq<char>>,
    s: GenState,
    ops: Seq<OpView>,
    from: int,
)
    requires
        state_ok(s),
        gen_ops(defs, active, s, ops, from) is Ok,
    ensures
        named_after_procs(
            defs,
            gen_ops(defs, active, s, ops, from)->Ok_0.module,
            s.module.len() as int,
        ),
    decreases level(defs, active), ops, ops.len() - from,
{
    if from < 0 || from >= ops.len() {
    } else {
        let next = gen_op(defs, active, s, ops[from], from)->Ok_0;
        let t = gen_ops(defs, active, next, ops, from + 1)->Ok_0;
        lemma_op_built(defs, active, s, ops[from], from);
        lemma_ops_built(defs, active, next, ops, from + 1);
        lemma_op_named(defs, active, s, ops[from], from);
        lemma_ops_named(defs, active, next, ops, from + 1);
        assert forall|f: int| s.module.len() <= f < t.module.len() implies find_proc(
            defs,
            (#[trigger] t.module[f]).name,
            0,
        ) is Some by {
            if f < next.module.len() {
                assert(t.module[f] == next.module[f]);
            }
        }
    }
}

/// Compiling an operation adds functions with the names of procedures
/// only.
pub proof fn lemma_op_named(
    defs: Seq<DefView>,
    active: Seq<Seq<char>>,
    s: GenState,
    op: OpView,
    at: int,
)
    requires
        state_ok(s),
        gen_op(defs, active, s, op, at) is Ok,
    ensures
        named_after_procs(
            defs,
            gen_op(defs, active, s, op, at)->Ok_0.module,
            s.module.len() as int,
        ),
    decreases level(defs, active), op, 0nat,
{
    match op {
        OpView::If(body) => {
            lemma_open_branch_built(s);
            lemma_ops_named(defs, active, s.open_branch(), body, 0);
        },
        OpView::Word(w) => {
            match find_function(s.module, w, 0) {
                Some(f) => {},
                None => match find_const(defs, w, 0) {
                    Some(c) => {
                        lemma_find_const(defs, w, 0);
                        lemma_remaining_enter(defs, active, w, c);
                        lemma_ops_named(defs, active.push(w), s, defs[c]->Const_0.ops, 0);
                    },
                    None => {
                        let p = find_proc(defs, w, 0)->Some_0;
                        lemma_find_proc(defs, w, 0);
                        lemma_remaining_enter(defs, active, w, p);
                        lemma_proc_named_after(defs, active.push(w), s, defs[p]->Proc_0);
                    },
                },
            }
        },
        _ => {},
    }
}

/// Compiling a procedure that is the first of its name adds functions
/// with the names of procedures only.
pub proof fn lemma_proc_named_after(
    defs: Seq<DefView>,
    active: Seq<Seq<char>>,
    s: GenState,
    proc: ProcView,
)
    requires
        find_proc(defs, proc.name, 0) is Some,
        gen_proc(defs, active, s, proc) is Ok,
    ensures
        named_after_procs(defs, gen_proc(defs, active, s, proc)->Ok_0.module, s.module.len() as int),
    decreases level(defs, active) + 1, proc.ops, 0nat,
{
    let start = s.open_proc(proc);
    lemma_open_proc_ok(s, proc);
    lemma_ops_named(defs, active, start, proc.ops, 0);
    lemma_ops_built(defs, active, start, proc.ops, 0);
    let body = gen_ops(defs, active, start, proc.ops, 0)->Ok_0;
    let t = gen_proc(defs, active, s, proc)->Ok_0;
    let finished = body.finished(proc.outputs);
    assert(t.module == body.module.push(finished));
    lemma_finished(start, body, proc.outputs);
    assert forall|f: int| s.module.len() <= f < t.module.len() implies find_proc(
        defs,
        (#[trigger] t.module[f]).name,
        0,
    ) is Some by {
        if f < body.module.len() {
            assert(t.module[f] == body.module[f]);
        }
    }
}

/// Whether nothing has the name: no constant, no procedure and no function
/// of the module.
pub open spec fn undefined(defs: Seq<DefView>, module: Seq<FunctionView>, word: Seq<char>) -> bool {
    &&& find_const(defs, word, 0) is None
    &&& find_proc(defs, word, 0) is None
    &&& find_function(module, word, 0) is None
}

/// Operations that hold a reference to a word that nothing defines, on
/// their own or in the body of a conditional, do not compile.
pub proof fn lemma_ops_undefined(
    defs: Seq<DefView>,
    active: Seq<Seq<char>>,
    s: GenState,
    ops: Seq<OpView>,
    from: int,
    word: Seq<char>,
)
    requires
        state_ok(s),
        undefined(defs, s.module, word),
        mentions(ops, from, word),
    ensures
        gen_ops(defs, active, s, ops, from) is Err,
    decreases ops, ops.len() - from,
{
    if gen_op(defs, active, s, ops[from], from) is Ok {
        let next = gen_op(defs, active, s, ops[from], from)->Ok_0;
        if op_mentions(ops[from], word) {
            lemma_op_undefined(defs, active, s, ops[from], from, word);
        } else {
            lemma_op_built(defs, active, s, ops[from], from);
            lemma_op_named(defs, active, s, ops[from], from);
            lemma_find_function(s.module, word, 0);
            lemma_find_function(next.module, word, 0);
            assert forall|f: int| 0 <= f < next.module.len() implies (#[trigger] next.module[f]).name
                != word by {
                if f < s.module.len() {
                    assert(next.module[f] == s.module[f]);
                }
            }
            lemma_ops_undefined(defs, active, next, ops, from + 1, word);
        }
    }
}

/// An operation that holds a reference to a word that nothing defines
/// does not compile.
pub proof fn lemma_op_undefined(
    defs: Seq<DefView>,
    active: Seq<Seq<char>>,
    s: GenState,
    op: OpView,
    at: int,
    word: Seq<char>,
)
    requires
        state_ok(s),
        undefined(defs, s.module, word),
        op_mentions(op, word),
    ensures
        gen_op(defs, active, s, op, at) is Err,
    decreases op, 0nat,
{
    match op {
        OpView::If(body) => {
            if s.stack.len() >= 1 {
                lemma_open_branch_built(s);
                lemma_ops_undefined(defs, active, s.open_branch(), body, 0, word);
            }
        },
        _ => {},
    }
}

/// Where the first operations of a sequence compile, compiling the
/// sequence goes on from the state that they leave.
pub proof fn lemma_prefix(
    defs: Seq<DefView>,
    active: Seq<Seq<char>>,
    s: GenState,
    ops: Seq<OpView>,
    upto: int,
    from: int,
)
    requires
        0 <= from <= upto <= ops.len(),
        gen_ops(defs, active, s, ops.take(upto), from) is Ok,
    ensures
        gen_ops(defs, active, s, ops, from) == gen_ops(
            defs,
            active,
            gen_ops(defs, active, s, ops.take(upto), from)->Ok_0,
            ops,
            upto,
        ),
    decreases upto - from,
{
    if from < upto {
        assert(ops.take(upto)[from] == ops[from]);
        let next = gen_op(defs, active, s, ops[from], from)->Ok_0;
        lemma_prefix(defs, active, next, ops, upto, from + 1);
    }
}

/// A procedure whose body refers to a word that nothing defines, on its
/// own or in the body of a conditional, does not compile, whatever else
/// the body holds; and a request to compile it fails where the module has
/// no function of its name yet.
pub proof fn undefined_word_fails_the_procedure(
    defs: Seq<DefView>,
    active: Seq<Seq<char>>,
    s: GenState,
    proc: ProcView,
    word: Seq<char>,
)
    requires
        undefined(defs, s.module, word),
        mentions(proc.ops, 0, word),
    ensures
        gen_proc(defs, active, s, proc) is Err,
        find_function(s.module, proc.name, 0) is None ==> gen_entry(defs, active, s, proc) is Err,
{
    lemma_open_proc_ok(s, proc);
    lemma_ops_undefined(defs, active, s.open_proc(proc), proc.ops, 0, word);
    lemma_ops_undefined(defs, active.push(proc.name), s.open_proc(proc), proc.ops, 0, word);
}

/// Where the operations before a reference to a word that nothing defines
/// compile, compiling the sequence fails at the reference, and the
/// failure names the word.
pub proof fn undefined_word_is_named(
    defs: Seq<DefView>,
    active: Seq<Seq<char>>,
    s: GenState,
    ops: Seq<OpView>,
    at: int,
    word: Seq<char>,
)
    requires
        0 <= at < ops.len(),
        ops[at] == OpView::Word(word),
        gen_ops(defs, active, s, ops.take(at), 0) matches Ok(reached) && undefined(
            defs,
            reached.module,
            word,
        ),
    ensures
        gen_ops(defs, active, s, ops, 0) == Err::<GenState, CompileErrorView>(
            fault(active, ErrorKindView::UnresolvedReference(word), at),
        ),
{
    lemma_prefix(defs, active, s, ops, at, 0);
    let reached = gen_ops(defs, active, s, ops.take(at), 0)->Ok_0;
    let failure = fault(active, ErrorKindView::UnresolvedReference(word), at);
    assert(gen_op(defs, active, reached, ops[at], at) == Err::<GenState, CompileErrorView>(failure));
    assert(gen_ops(defs, active, reached, ops, at) == Err::<GenState, CompileErrorView>(failure));
}

/// Where the operations before a reference to a word that nothing defines
/// compile in the body of a procedure, compiling the procedure fails at
/// the reference, and the failure names the word.
pub proof fn undefined_word_in_a_procedure_is_named(
    defs: Seq<DefView>,
    active: Seq<Seq<char>>,
    s: GenState,
    proc: ProcView,
    at: int,
    word: Seq<char>,
)
    requires
        0 <= at < proc.ops.len(),
        proc.ops[at] == OpView::Word(word),
        gen_ops(defs, active, s.open_proc(proc), proc.ops.take(at), 0) matches Ok(reached)
            && undefined(defs, reached.module, word),
    ensures
        gen_proc(defs, active, s, proc) == Err::<GenState, CompileErrorView>(
            fault(active, ErrorKindView::UnresolvedReference(word), at),
        ),
{
    undefined_word_is_named(defs, active, s.open_proc(proc), proc.ops, at, word);
}

} // verus!
