//! A reference to a constant fails exactly where the constant's operations
//! fail when they are written in its place.

use vstd::prelude::*;
use crate::ast::{DefView, OpView, ProcView};
use crate::generation::{
    find_const, find_proc, gen_op, gen_ops, gen_proc, lemma_find_const, lemma_find_proc,
    lemma_remaining_enter, level, CompileErrorView, GenState,
};
use crate::inlining::{
    constant_reference_is_its_operations, lemma_ops_fewer, lemma_proc_fewer, lemma_sequence, success,
};
use crate::ir::{find_function, lemma_find_function};
use crate::laws::{lemma_op_avoids, lemma_ops_avoid, lemma_pushed_contains, names_avoided};
use crate::simulation::{
    lemma_op_built, lemma_op_names, lemma_open_branch_built, lemma_open_proc_ok, lemma_ops_built,
    scope_within, state_ok,
};

verus! {

/// The operations from index `from` on hold a reference to the word,
/// themselves or in the body of a conditional.
pub open spec fn mentions(ops: Seq<OpView>, from: int, word: Seq<char>) -> bool
    decreases ops, ops.len() - from,
{
    if from < 0 || from >= ops.len() {
        false
    } else {
        op_mentions(ops[from], word) || mentions(ops, from + 1, word)
    }
}

/// The operation is a reference to the word, or a conditional whose body
/// holds one.
pub open spec fn op_mentions(op: OpView, word: Seq<char>) -> bool
    decreases op, 0nat,
{
    match op {
        OpView::Word(w) => w == word,
        OpView::If(body) => mentions(body, 0, word),
        _ => false,
    }
}

/// Operations that hold a reference to a definition that is being
/// compiled, of whose name the module has no function, do not compile.
pub proof fn lemma_ops_refused(
    defs: Seq<DefView>,
    active: Seq<Seq<char>>,
    s: GenState,
    ops: Seq<OpView>,
    from: int,
    word: Seq<char>,
)
    requires
        state_ok(s),
        names_avoided(s.module, 0, active),
        active.contains(word),
        mentions(ops, from, word),
    ensures
        gen_ops(defs, active, s, ops, from) is Err,
    decreases ops, ops.len() - from,
{
    if gen_op(defs, active, s, ops[from], from) is Ok {
        let next = gen_op(defs, active, s, ops[from], from)->Ok_0;
        if op_mentions(ops[from], word) {
            lemma_op_refused(defs, active, s, ops[from], from, word);
        } else {
            lemma_op_built(defs, active, s, ops[from], from);
            lemma_op_avoids(defs, active, s, ops[from], from);
            assert forall|f: int| 0 <= f < next.module.len() implies !active.contains(
                (#[trigger] next.module[f]).name,
            ) by {
                if f < s.module.len() {
                    assert(next.module[f] == s.module[f]);
                }
            }
            lemma_ops_refused(defs, active, next, ops, from + 1, word);
        }
    }
}

/// An operation that holds a reference to a definition that is being
/// compiled, of whose name the module has no function, does not compile.
pub proof fn lemma_op_refused(
    defs: Seq<DefView>,
    active: Seq<Seq<char>>,
    s: GenState,
    op: OpView,
    at: int,
    word: Seq<char>,
)
    requires
        state_ok(s),
        names_avoided(s.module, 0, active),
        active.contains(word),
        op_mentions(op, word),
    ensures
        gen_op(defs, active, s, op, at) is Err,
    decreases op, 0nat,
{
    match op {
        OpView::If(body) => {
            if s.stack.len() >= 1 {
                lemma_open_branch_built(s);
                lemma_ops_refused(defs, active, s.open_branch(), body, 0, word);
            }
        },
        OpView::Word(w) => {
            lemma_find_function(s.module, w, 0);
        },
        _ => {},
    }
}

/// The operations of the first constant of a name.
pub open spec fn body_of(defs: Seq<DefView>, name: Seq<char>) -> Seq<OpView> {
    defs[find_const(defs, name, 0)->Some_0]->Const_0.ops
}

/// The operations of the constant hold a reference to the word, and the
/// word names the constant or a definition that is being compiled.
pub open spec fn hooked(
    defs: Seq<DefView>,
    active: Seq<Seq<char>>,
    name: Seq<char>,
    word: Seq<char>,
) -> bool {
    mentions(body_of(defs, name), 0, word) && (active.contains(word) || word == name)
}

/// Every word that the operations from index `from` on refer to is one
/// that the operations of the constant refer to.
pub open spec fn part_of(defs: Seq<DefView>, name: Seq<char>, ops: Seq<OpView>, from: int) -> bool {
    forall|x: Seq<char>| #[trigger] mentions(ops, from, x) ==> mentions(body_of(defs, name), 0, x)
}

/// Every word that the operation refers to is one that the operations of
/// the constant refer to.
pub open spec fn op_part_of(defs: Seq<DefView>, name: Seq<char>, op: OpView) -> bool {
    forall|x: Seq<char>| #[trigger] op_mentions(op, x) ==> mentions(body_of(defs, name), 0, x)
}

/// A name of a list with one more is a name of the list or the one more.
pub proof fn lemma_pushed_holds(names: Seq<Seq<char>>, name: Seq<char>, other: Seq<char>)
    ensures
        names.push(name).contains(other) <==> names.contains(other) || other == name,
{
    let more = names.push(name);
    if more.contains(other) {
        let k = choose|k: int| 0 <= k < more.len() && more[k] == other;
        if k < names.len() {
            assert(names[k] == other);
        }
    }
    if names.contains(other) {
        lemma_pushed_contains(names, name, other);
    }
    if other == name {
        assert(more[names.len() as int] == other);
    }
}

/// A list with two more names is within the list with the two in the
/// other order.
pub proof fn lemma_swapped_within(names: Seq<Seq<char>>, first: Seq<char>, second: Seq<char>)
    ensures
        scope_within(names.push(first).push(second), names.push(second).push(first)),
{
    let one = names.push(first).push(second);
    let other = names.push(second).push(first);
    assert forall|i: int| 0 <= i < one.len() implies other.contains(#[trigger] one[i]) by {
        lemma_pushed_holds(names.push(second), first, one[i]);
        lemma_pushed_holds(names, second, one[i]);
        lemma_pushed_holds(names.push(first), second, one[i]);
        lemma_pushed_holds(names, first, one[i]);
        assert(one.contains(one[i]));
    }
}

/// Operations that compile, reached from the operations of a constant
/// that compile in their turn, compile to the same while that constant
/// counts as being compiled: they do not lead back to it.
pub proof fn lemma_ops_entered(
    defs: Seq<DefView>,
    active: Seq<Seq<char>>,
    s: GenState,
    ops: Seq<OpView>,
    from: int,
    name: Seq<char>,
    word: Seq<char>,
)
    requires
        state_ok(s),
        find_const(defs, name, 0) is Some,
        !active.contains(name),
        names_avoided(s.module, 0, active.push(name)),
        hooked(defs, active, name, word) || part_of(defs, name, ops, from),
        gen_ops(defs, active, s, ops, from) is Ok,
    ensures
        gen_ops(defs, active.push(name), s, ops, from) == gen_ops(defs, active, s, ops, from),
    decreases level(defs, active), ops, ops.len() - from,
{
    if from < 0 || from >= ops.len() {
    } else {
        let next = gen_op(defs, active, s, ops[from], from)->Ok_0;
        if !hooked(defs, active, name, word) {
            assert forall|x: Seq<char>| #[trigger] op_mentions(ops[from], x) implies mentions(
                body_of(defs, name),
                0,
                x,
            ) by {
                assert(mentions(ops, from, x));
            }
            assert forall|x: Seq<char>| #[trigger] mentions(ops, from + 1, x) implies mentions(
                body_of(defs, name),
                0,
                x,
            ) by {
                assert(mentions(ops, from, x));
            }
        }
        lemma_op_entered(defs, active, s, ops[from], from, name, word);
        lemma_op_built(defs, active, s, ops[from], from);
        lemma_op_avoids(defs, active, s, ops[from], from);
        lemma_op_names(defs, active, s, ops[from], from);
        assert forall|f: int| 0 <= f < next.module.len() implies !active.push(name).contains(
            (#[trigger] next.module[f]).name,
        ) by {
            if f < s.module.len() {
                assert(next.module[f] == s.module[f]);
            } else {
                lemma_pushed_holds(active, name, next.module[f].name);
            }
        }
        lemma_ops_entered(defs, active, next, ops, from + 1, name, word);
    }
}

/// An operation that compiles, reached from the operations of a constant
/// that compile in their turn, compiles to the same while that constant
/// counts as being compiled.
pub proof fn lemma_op_entered(
    defs: Seq<DefView>,
    active: Seq<Seq<char>>,
    s: GenState,
    op: OpView,
    at: int,
    name: Seq<char>,
    word: Seq<char>,
)
    requires
        state_ok(s),
        find_const(defs, name, 0) is Some,
        !active.contains(name),
        names_avoided(s.module, 0, active.push(name)),
        hooked(defs, active, name, word) || op_part_of(defs, name, op),
        gen_op(defs, active, s, op, at) is Ok,
    ensures
        gen_op(defs, active.push(name), s, op, at) == gen_op(defs, active, s, op, at),
    decreases level(defs, active), op, 0nat,
{
    let wider = active.push(name);
    match op {
        OpView::If(body) => {
            lemma_open_branch_built(s);
            if !hooked(defs, active, name, word) {
                assert forall|x: Seq<char>| #[trigger] mentions(body, 0, x) implies mentions(
                    body_of(defs, name),
                    0,
                    x,
                ) by {
                    assert(op_mentions(op, x));
                }
            }
            lemma_ops_entered(defs, active, s.open_branch(), body, 0, name, word);
        },
        OpView::Word(w) => {
            lemma_find_function(s.module, w, 0);
            if find_function(s.module, w, 0) is None {
                // The word that leads back from here on.
                let hook = if hooked(defs, active, name, word) {
                    word
                } else {
                    w
                };
                assert(mentions(body_of(defs, name), 0, hook)) by {
                    if !hooked(defs, active, name, word) {
                        assert(op_mentions(op, w));
                    }
                }
                lemma_pushed_holds(active, name, w);
                lemma_pushed_holds(active, name, hook);
                if w == name {
                    lemma_ops_refused(defs, wider, s, body_of(defs, name), 0, hook);
                } else {
                    let inner = active.push(w);
                    lemma_pushed_holds(active, w, name);
                    lemma_pushed_holds(active, w, hook);
                    assert(hooked(defs, inner, name, hook));
                    assert forall|f: int| 0 <= f < s.module.len() implies !inner.push(name).contains(
                        (#[trigger] s.module[f]).name,
                    ) by {
                        lemma_pushed_holds(inner, name, s.module[f].name);
                        lemma_pushed_holds(active, w, s.module[f].name);
                        lemma_pushed_holds(active, name, s.module[f].name);
                    }
                    lemma_swapped_within(active, name, w);
                    match find_const(defs, w, 0) {
                        Some(c) => {
                            lemma_find_const(defs, w, 0);
                            lemma_remaining_enter(defs, active, w, c);
                            lemma_ops_entered(defs, inner, s, defs[c]->Const_0.ops, 0, name, hook);
                            lemma_ops_fewer(
                                defs,
                                inner.push(name),
                                wider.push(w),
                                s,
                                defs[c]->Const_0.ops,
                                0,
                            );
                        },
                        None => {
                            let p = find_proc(defs, w, 0)->Some_0;
                            lemma_find_proc(defs, w, 0);
                            lemma_remaining_enter(defs, active, w, p);
                            lemma_proc_entered(defs, inner, s, defs[p]->Proc_0, name, hook);
                            lemma_proc_fewer(defs, inner.push(name), wider.push(w), s, defs[p]->Proc_0);
                        },
                    }
                }
            }
        },
        _ => {},
    }
}

/// A procedure that compiles, reached from the operations of a constant
/// that compile in their turn, compiles to the same while that constant
/// counts as being compiled.
pub proof fn lemma_proc_entered(
    defs: Seq<DefView>,
    active: Seq<Seq<char>>,
    s: GenState,
    proc: ProcView,
    name: Seq<char>,
    word: Seq<char>,
)
    requires
        find_const(defs, name, 0) is Some,
        !active.contains(name),
        names_avoided(s.module, 0, active.push(name)),
        hooked(defs, active, name, word),
        gen_proc(defs, active, s, proc) is Ok,
    ensures
        gen_proc(defs, active.push(name), s, proc) == gen_proc(defs, active, s, proc),
    decreases level(defs, active) + 1, proc.ops, 0nat,
{
    lemma_open_proc_ok(s, proc);
    lemma_ops_entered(defs, active, s.open_proc(proc), proc.ops, 0, name, word);
}

/// A sequence with a reference to a constant compiles exactly where the
/// sequence compiles in which the constant's operations stand in place of
/// the reference, and to the same; where one fails, so does the other.
///
/// This holds where the constant is not being compiled itself and the
/// module has no function of its name or of the name of a definition that
/// is being compiled, as is so whenever the generator is not in the middle
/// of a definition.
pub proof fn constant_fails_as_its_operations(
    defs: Seq<DefView>,
    active: Seq<Seq<char>>,
    s: GenState,
    before: Seq<OpView>,
    word: Seq<char>,
    after: Seq<OpView>,
)
    requires
        state_ok(s),
        names_avoided(s.module, 0, active),
        !active.contains(word),
        find_const(defs, word, 0) is Some,
        gen_ops(defs, active, s, before, 0) matches Ok(reached) && find_function(
            reached.module,
            word,
            0,
        ) is None,
    ensures
        success(gen_ops(defs, active, s, before + body_of(defs, word) + after, 0)) == success(
            gen_ops(defs, active, s, before + seq![OpView::Word(word)] + after, 0),
        ),
{
    let body = body_of(defs, word);
    let reference = seq![OpView::Word(word)];
    let reached = gen_ops(defs, active, s, before, 0)->Ok_0;
    if gen_ops(defs, active, s, before + body + after, 0) is Ok {
        // The operations compile in place of the reference, so the
        // reference compiles where it stands, and to the same.
        lemma_sequence(defs, active, s, before + reference, after);
        lemma_sequence(defs, active, s, before, reference);
        lemma_sequence(defs, active, s, before + body, after);
        lemma_sequence(defs, active, s, before, body);
        lemma_ops_built(defs, active, s, before, 0);
        lemma_ops_avoid(defs, active, s, before, 0);
        lemma_find_function(reached.module, word, 0);
        assert forall|f: int| 0 <= f < reached.module.len() implies !active.push(word).contains(
            (#[trigger] reached.module[f]).name,
        ) by {
            lemma_pushed_holds(active, word, reached.module[f].name);
            if f < s.module.len() {
                assert(reached.module[f] == s.module[f]);
            }
        }
        lemma_ops_entered(defs, active, reached, body, 0, word, word);
        let inlined = gen_op(defs, active, reached, OpView::Word(word), 0);
        assert(inlined == gen_ops(defs, active, reached, body, 0));
        assert(gen_ops(defs, active, reached, reference, 0) == (match inlined {
            Ok(next) => gen_ops(defs, active, next, reference, 1),
            Err(e) => Err(e),
        }));
        assert(gen_ops(defs, active, inlined->Ok_0, reference, 1) == Ok::<GenState, CompileErrorView>(
            inlined->Ok_0,
        ));
    } else if gen_ops(defs, active, s, before + reference + after, 0) is Ok {
        constant_reference_is_its_operations(defs, active, s, before, word, after);
    }
}

} // verus!
