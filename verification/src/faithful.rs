//! Every function that the generator adds to a module computes what the
//! procedure of its name means.

use vstd::prelude::*;
use crate::ast::{DefView, OpView, ProcView};
use crate::ir::{find_function, lemma_find_function, FunctionView};
use crate::meaning::proc_meaning;
use crate::semantics::call_function;
use crate::simulation::{
    consts_apart, lemma_consts_apart_trans, lemma_find_function_grows, lemma_finished, lemma_op_built,
    lemma_open_branch_built, lemma_open_proc_ok, lemma_ops_built, lemma_proc_built,
    lemma_proc_names, lemma_proc_simulated, module_fits, names_apart, scope_within, state_ok,
};
use crate::generation::{
    find_const, find_proc, gen_all, gen_entry, gen_op, gen_ops, gen_proc, lemma_find_const,
    lemma_find_proc, lemma_remaining_enter, level, GenState,
};

verus! {

/// Function `f` of the module has the signature of the first procedure of
/// its name: its inputs as parameters and, where the procedure declares
/// outputs, those as results.
pub open spec fn signed_at(defs: Seq<DefView>, module: Seq<FunctionView>, f: int) -> bool {
    find_proc(defs, module[f].name, 0) matches Some(k) && module[f].params == defs[k]->Proc_0.inputs
        && (defs[k]->Proc_0.outputs.len() > 0 ==> module[f].results == defs[k]->Proc_0.outputs)
}

/// Function `f` of the module has the signature of the first procedure of
/// its name and computes what that procedure means: for all arguments, as
/// many as the procedure has inputs, it returns what the procedure's body
/// leaves on a stack that held the arguments, prints what the body
/// prints, and faults where the body does.
pub open spec fn faithful_at(defs: Seq<DefView>, module: Seq<FunctionView>, f: int) -> bool {
    &&& signed_at(defs, module, f)
    &&& find_proc(defs, module[f].name, 0) matches Some(k) && forall|args: Seq<u64>, output: Seq<u64>|
        args.len() == defs[k]->Proc_0.inputs.len() ==> #[trigger] call_function(
            module,
            f,
            args,
            output,
        ) == proc_meaning(defs, Seq::empty(), module, defs[k]->Proc_0, args, output)
}

/// The functions from index `from` up to index `to` compute what the
/// procedures of their names mean.
pub open spec fn faithful_between(
    defs: Seq<DefView>,
    module: Seq<FunctionView>,
    from: int,
    to: int,
) -> bool {
    forall|f: int| from <= f < to ==> #[trigger] faithful_at(defs, module, f)
}

/// The functions that compiling operations adds compute what the
/// procedures of their names mean, also in a module that has more
/// functions behind.
pub proof fn lemma_ops_faithful(
    defs: Seq<DefView>,
    active: Seq<Seq<char>>,
    module: Seq<FunctionView>,
    s: GenState,
    ops: Seq<OpView>,
    from: int,
)
    requires
        state_ok(s),
        gen_ops(defs, active, s, ops, from) is Ok,
        gen_ops(defs, active, s, ops, from)->Ok_0.module.is_prefix_of(module),
        consts_apart(defs, module, s.module.len() as int),
        module_fits(module),
    ensures
        faithful_between(
            defs,
            module,
            s.module.len() as int,
            gen_ops(defs, active, s, ops, from)->Ok_0.module.len() as int,
        ),
    decreases level(defs, active), ops, ops.len() - from,
{
    if from < 0 || from >= ops.len() {
    } else {
        let next = gen_op(defs, active, s, ops[from], from)->Ok_0;
        let t = gen_ops(defs, active, next, ops, from + 1)->Ok_0;
        lemma_op_built(defs, active, s, ops[from], from);
        lemma_ops_built(defs, active, next, ops, from + 1);
        assert(next.module.is_prefix_of(module));
        lemma_op_faithful(defs, active, module, s, ops[from], from);
        lemma_ops_faithful(defs, active, module, next, ops, from + 1);
    }
}

/// The functions that compiling one operation adds compute what the
/// procedures of their names mean.
pub proof fn lemma_op_faithful(
    defs: Seq<DefView>,
    active: Seq<Seq<char>>,
    module: Seq<FunctionView>,
    s: GenState,
    op: OpView,
    at: int,
)
    requires
        state_ok(s),
        gen_op(defs, active, s, op, at) is Ok,
        gen_op(defs, active, s, op, at)->Ok_0.module.is_prefix_of(module),
        consts_apart(defs, module, s.module.len() as int),
        module_fits(module),
    ensures
        faithful_between(
            defs,
            module,
            s.module.len() as int,
            gen_op(defs, active, s, op, at)->Ok_0.module.len() as int,
        ),
    decreases level(defs, active), op, 0nat,
{
    match op {
        OpView::If(body) => {
            let inner = s.open_branch();
            lemma_open_branch_built(s);
            lemma_ops_faithful(defs, active, module, inner, body, 0);
        },
        OpView::Word(w) => {
            match find_function(s.module, w, 0) {
                Some(f) => {},
                None => match find_const(defs, w, 0) {
                    Some(c) => {
                        lemma_find_const(defs, w, 0);
                        lemma_remaining_enter(defs, active, w, c);
                        lemma_ops_faithful(defs, active.push(w), module, s, defs[c]->Const_0.ops, 0);
                    },
                    None => {
                        let p = find_proc(defs, w, 0)->Some_0;
                        lemma_find_proc(defs, w, 0);
                        lemma_remaining_enter(defs, active, w, p);
                        lemma_proc_faithful(defs, active.push(w), module, s, p);
                    },
                },
            }
        },
        _ => {},
    }
}

/// The functions that compiling the first procedure of its name adds
/// compute what the procedures of their names mean.
pub proof fn lemma_proc_faithful(
    defs: Seq<DefView>,
    active: Seq<Seq<char>>,
    module: Seq<FunctionView>,
    s: GenState,
    k: int,
)
    requires
        0 <= k < defs.len(),
        defs[k] is Proc,
        find_proc(defs, defs[k].name(), 0) == Some(k),
        gen_proc(defs, active, s, defs[k]->Proc_0) is Ok,
        gen_proc(defs, active, s, defs[k]->Proc_0)->Ok_0.module.is_prefix_of(module),
        consts_apart(defs, module, s.module.len() as int),
        module_fits(module),
    ensures
        faithful_between(
            defs,
            module,
            s.module.len() as int,
            gen_proc(defs, active, s, defs[k]->Proc_0)->Ok_0.module.len() as int,
        ),
    decreases level(defs, active) + 1, defs[k]->Proc_0.ops, 0nat,
{
    let proc = defs[k]->Proc_0;
    let t = gen_proc(defs, active, s, proc)->Ok_0;
    let start = s.open_proc(proc);
    let body = gen_ops(defs, active, start, proc.ops, 0)->Ok_0;
    let at = body.module.len() as int;
    assert(t.module == body.module.push(body.finished(proc.outputs)));
    assert(body.module.is_prefix_of(module));
    lemma_open_proc_ok(s, proc);
    lemma_ops_faithful(defs, active, module, start, proc.ops, 0);
    assert(scope_within(Seq::empty(), active));
    lemma_proc_named(defs, active, s, proc);
    assert(module[at] == t.module[at]);
    assert(module[at].name == proc.name);
    assert(signed_at(defs, module, at));
    assert forall|args: Seq<u64>, output: Seq<u64>|
        args.len() == proc.inputs.len() implies #[trigger] call_function(module, at, args, output)
        == proc_meaning(defs, Seq::empty(), module, proc, args, output) by {
        lemma_proc_simulated(defs, active, Seq::empty(), module, s, proc, args, output);
    }
    assert(faithful_at(defs, module, at));
}

/// Compiling a procedure adds a function of its name and signature at the
/// end of the module.
pub proof fn lemma_proc_named(
    defs: Seq<DefView>,
    active: Seq<Seq<char>>,
    s: GenState,
    proc: ProcView,
)
    requires
        gen_proc(defs, active, s, proc) is Ok,
    ensures
        gen_proc(defs, active, s, proc)->Ok_0.module.len() > s.module.len(),
        gen_proc(defs, active, s, proc)->Ok_0.module.last().name == proc.name,
        gen_proc(defs, active, s, proc)->Ok_0.module.last().params == proc.inputs,
        proc.outputs.len() > 0 ==> gen_proc(defs, active, s, proc)->Ok_0.module.last().results
            == proc.outputs,
{
    let start = s.open_proc(proc);
    let body = gen_ops(defs, active, start, proc.ops, 0)->Ok_0;
    lemma_open_proc_ok(s, proc);
    lemma_ops_built(defs, active, start, proc.ops, 0);
    lemma_finished(start, body, proc.outputs);
}

/// A module that holds a function of a name lets it be found.
pub proof fn lemma_function_found(module: Seq<FunctionView>, f: int)
    requires
        0 <= f < module.len(),
    ensures
        find_function(module, module[f].name, 0) is Some,
{
    lemma_find_function(module, module[f].name, 0);
}

/// A module holds a function of the name of every procedure below index
/// `to`.
pub open spec fn covered(defs: Seq<DefView>, module: Seq<FunctionView>, to: int) -> bool {
    forall|k: int|
        0 <= k < to && k < defs.len() && (#[trigger] defs[k]) is Proc ==> find_function(
            module,
            defs[k].name(),
            0,
        ) is Some
}

/// A procedure before which no procedure has its name is the first of its
/// name.
pub proof fn lemma_first_proc(defs: Seq<DefView>, at: int, from: int)
    requires
        0 <= from <= at < defs.len(),
        defs[at] is Proc,
        forall|k: int|
            0 <= k < at && (#[trigger] defs[k]) is Proc ==> defs[k].name() != defs[at].name(),
    ensures
        find_proc(defs, defs[at].name(), from) == Some(at),
    decreases at - from,
{
    if from < at {
        if defs[from] is Proc {
            assert(defs[from].name() != defs[at].name());
        }
        lemma_first_proc(defs, at, from + 1);
    }
}

/// The state after the definition at index `from` has been looked at.
pub open spec fn all_step(defs: Seq<DefView>, active: Seq<Seq<char>>, s: GenState, from: int) -> GenState {
    match defs[from] {
        DefView::Proc(p) => gen_entry(defs, active, s, p)->Ok_0,
        DefView::Const(_) => s,
    }
}

/// Looking at one definition builds on the module, adds no function that
/// has the name of a constant, and leaves a function of the name of every
/// procedure that has been looked at.
pub proof fn lemma_all_step(defs: Seq<DefView>, active: Seq<Seq<char>>, s: GenState, from: int)
    requires
        names_apart(defs),
        state_ok(s),
        0 <= from < defs.len(),
        gen_all(defs, active, s, from) is Ok,
    ensures
        gen_all(defs, active, s, from) == gen_all(
            defs,
            active,
            all_step(defs, active, s, from),
            from + 1,
        ),
        state_ok(all_step(defs, active, s, from)),
        s.module.is_prefix_of(all_step(defs, active, s, from).module),
        consts_apart(defs, all_step(defs, active, s, from).module, s.module.len() as int),
        covered(defs, s.module, from) ==> covered(
            defs,
            all_step(defs, active, s, from).module,
            from + 1,
        ),
{
    let next = all_step(defs, active, s, from);
    match defs[from] {
        DefView::Proc(p) => {
            if find_function(s.module, p.name, 0) is None {
                lemma_proc_built(defs, active.push(p.name), s, p);
                lemma_proc_names(defs, active.push(p.name), s, p);
                lemma_proc_named(defs, active.push(p.name), s, p);
                lemma_function_found(next.module, next.module.len() - 1);
            }
        },
        DefView::Const(_) => {},
    }
    if covered(defs, s.module, from) {
        assert forall|k: int|
            0 <= k < from + 1 && k < defs.len() && (#[trigger] defs[k]) is Proc implies find_function(
            next.module,
            defs[k].name(),
            0,
        ) is Some by {
            if k < from {
                lemma_find_function_grows(s.module, next.module, defs[k].name(), 0);
            }
        }
    }
}

/// Compiling the procedures builds on the module, adds no function that
/// has the name of a constant, and leaves a function of the name of every
/// procedure.
pub proof fn lemma_all_built(defs: Seq<DefView>, active: Seq<Seq<char>>, s: GenState, from: int)
    requires
        names_apart(defs),
        state_ok(s),
        0 <= from,
        gen_all(defs, active, s, from) is Ok,
    ensures
        s.module.is_prefix_of(gen_all(defs, active, s, from)->Ok_0.module),
        consts_apart(defs, gen_all(defs, active, s, from)->Ok_0.module, s.module.len() as int),
        state_ok(gen_all(defs, active, s, from)->Ok_0),
        covered(defs, s.module, from) ==> covered(
            defs,
            gen_all(defs, active, s, from)->Ok_0.module,
            defs.len() as int,
        ),
    decreases defs.len() - from,
{
    if from >= defs.len() {
    } else {
        let next = all_step(defs, active, s, from);
        lemma_all_step(defs, active, s, from);
        lemma_all_built(defs, active, next, from + 1);
        let t = gen_all(defs, active, next, from + 1)->Ok_0;
        lemma_consts_apart_trans(defs, s.module, next.module, t.module);
    }
}

/// The functions that compiling the procedures adds compute what the
/// procedures of their names mean.
pub proof fn lemma_all_faithful(
    defs: Seq<DefView>,
    active: Seq<Seq<char>>,
    module: Seq<FunctionView>,
    s: GenState,
    from: int,
)
    requires
        names_apart(defs),
        state_ok(s),
        0 <= from,
        gen_all(defs, active, s, from) is Ok,
        gen_all(defs, active, s, from)->Ok_0.module.is_prefix_of(module),
        consts_apart(defs, module, s.module.len() as int),
        module_fits(module),
        covered(defs, s.module, from),
    ensures
        faithful_between(
            defs,
            module,
            s.module.len() as int,
            gen_all(defs, active, s, from)->Ok_0.module.len() as int,
        ),
    decreases defs.len() - from,
{
    if from >= defs.len() {
    } else {
        let next = all_step(defs, active, s, from);
        lemma_all_step(defs, active, s, from);
        lemma_all_built(defs, active, next, from + 1);
        assert(next.module.is_prefix_of(module));
        match defs[from] {
            DefView::Proc(p) => {
                if find_function(s.module, p.name, 0) is None {
                    assert forall|k: int| 0 <= k < from && (#[trigger] defs[k]) is Proc implies defs[k].name()
                        != defs[from].name() by {
                        assert(find_function(s.module, defs[k].name(), 0) is Some);
                    }
                    lemma_first_proc(defs, from, 0);
                    lemma_proc_faithful(defs, active.push(p.name), module, s, from);
                }
            },
            DefView::Const(_) => {},
        }
        lemma_all_faithful(defs, active, module, next, from + 1);
    }
}

/// Every function that compiling the procedures adds to a module computes
/// what the first procedure of its name means, and the module then holds a
/// function of the name of every procedure.
///
/// This holds where no procedure has the name of a constant, and for
/// modules whose lengths fit in machine words, as all those do that the
/// generator builds.
pub proof fn compiled_functions_are_faithful(defs: Seq<DefView>, active: Seq<Seq<char>>, s: GenState)
    requires
        names_apart(defs),
        state_ok(s),
        gen_all(defs, active, s, 0) is Ok,
        module_fits(gen_all(defs, active, s, 0)->Ok_0.module),
    ensures
        faithful_between(
            defs,
            gen_all(defs, active, s, 0)->Ok_0.module,
            s.module.len() as int,
            gen_all(defs, active, s, 0)->Ok_0.module.len() as int,
        ),
        covered(defs, gen_all(defs, active, s, 0)->Ok_0.module, defs.len() as int),
{
    let t = gen_all(defs, active, s, 0)->Ok_0;
    lemma_all_built(defs, active, s, 0);
    assert(t.module.is_prefix_of(t.module));
    lemma_all_faithful(defs, active, t.module, s, 0);
}

} // verus!
