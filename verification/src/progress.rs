//! What the generator builds does not go wrong: called with as many
//! arguments as it has parameters, a function that the generator built
//! returns or faults, and is never found ill formed while it runs.

use vstd::prelude::*;
use crate::ast::{DefView, OpView, ProcView};
use crate::faithful::{lemma_all_built, lemma_all_step, all_step};
use crate::generation::{
    find_const, find_proc, gen_all, gen_op, gen_ops, gen_proc, lemma_find_const, lemma_find_proc,
    lemma_remaining_enter, level, GenState,
};
use crate::ir::{find_function, lemma_find_function, print_name, FunctionView};
use crate::meaning::{call_meaning, op_meaning, ops_meaning, Effect};
use crate::semantics::call_function;
use crate::simulation::{
    consts_apart, lemma_call_built, lemma_call_returns, lemma_const_is_no_function,
    lemma_find_function_grows, lemma_op_built, lemma_open_branch_built, lemma_open_proc_ok,
    lemma_ops_built, lemma_proc_built, lemma_proc_simulated, lemma_scope_lacks, lemma_scope_push,
    module_fits, names_apart, scope_within, state_ok,
};

verus! {

/// Function `f` of the module does not go wrong: called with as many
/// arguments as it has parameters, it returns or faults.
pub open spec fn runs(module: Seq<FunctionView>, f: int) -> bool {
    forall|args: Seq<u64>, output: Seq<u64>|
        args.len() == module[f].params.len() ==> !(#[trigger] call_function(module, f, args, output)
            is Invalid)
}

/// The functions below index `to` do not go wrong.
pub open spec fn run_below(module: Seq<FunctionView>, to: int) -> bool {
    forall|f: int| 0 <= f < to ==> #[trigger] runs(module, f)
}

/// The effect is no failure to mean anything, and leaves a stack of that
/// depth where it leaves one.
pub open spec fn lands(effect: Effect, depth: nat) -> bool {
    match effect {
        Effect::Done { stack, .. } => stack.len() == depth,
        Effect::Fault => true,
        Effect::Stuck => false,
    }
}

/// A call of a function that does not go wrong lands.
pub proof fn lemma_call_lands(
    module: Seq<FunctionView>,
    s: GenState,
    f: int,
    stack: Seq<u64>,
    output: Seq<u64>,
)
    requires
        0 <= f < s.module.len(),
        s.module.is_prefix_of(module),
        runs(module, f),
        stack.len() == s.stack.len(),
        s.stack.len() >= s.module[f].params.len(),
    ensures
        lands(call_meaning(module, f, stack, output), s.call(f).stack.len()),
{
    assert(module[f] == s.module[f]);
    let n = stack.len() as int;
    let arity = module[f].params.len() as int;
    let args = stack.subrange(n - arity, n);
    lemma_call_returns(module, f, args, output);
    assert(!(call_function(module, f, args, output) is Invalid));
}

/// Operations that compile land, and the functions that compiling them
/// adds do not go wrong.
pub proof fn lemma_ops_land(
    defs: Seq<DefView>,
    active: Seq<Seq<char>>,
    scope: Seq<Seq<char>>,
    module: Seq<FunctionView>,
    s: GenState,
    ops: Seq<OpView>,
    from: int,
    stack: Seq<u64>,
    output: Seq<u64>,
)
    requires
        state_ok(s),
        gen_ops(defs, active, s, ops, from) is Ok,
        gen_ops(defs, active, s, ops, from)->Ok_0.module.is_prefix_of(module),
        consts_apart(defs, module, s.module.len() as int),
        module_fits(module),
        scope_within(scope, active),
        run_below(module, s.module.len() as int),
        stack.len() == s.stack.len(),
    ensures
        run_below(module, gen_ops(defs, active, s, ops, from)->Ok_0.module.len() as int),
        lands(
            ops_meaning(defs, scope, module, ops, from, stack, output),
            gen_ops(defs, active, s, ops, from)->Ok_0.stack.len(),
        ),
    decreases level(defs, active), ops, ops.len() - from,
{
    if from < 0 || from >= ops.len() {
    } else {
        let next = gen_op(defs, active, s, ops[from], from)->Ok_0;
        let t = gen_ops(defs, active, next, ops, from + 1)->Ok_0;
        lemma_op_built(defs, active, s, ops[from], from);
        lemma_ops_built(defs, active, next, ops, from + 1);
        assert(next.module.is_prefix_of(module));
        lemma_op_lands(defs, active, scope, module, s, ops[from], from, stack, output);
        match op_meaning(defs, scope, module, ops[from], stack, output) {
            Effect::Done { stack: rest, output: printed } => {
                lemma_ops_land(defs, active, scope, module, next, ops, from + 1, rest, printed);
            },
            _ => {
                lemma_ops_land(
                    defs,
                    active,
                    scope,
                    module,
                    next,
                    ops,
                    from + 1,
                    Seq::new(next.stack.len(), |i: int| 0u64),
                    output,
                );
            },
        }
    }
}

/// An operation that compiles lands, and the functions that compiling it
/// adds do not go wrong.
pub proof fn lemma_op_lands(
    defs: Seq<DefView>,
    active: Seq<Seq<char>>,
    scope: Seq<Seq<char>>,
    module: Seq<FunctionView>,
    s: GenState,
    op: OpView,
    at: int,
    stack: Seq<u64>,
    output: Seq<u64>,
)
    requires
        state_ok(s),
        gen_op(defs, active, s, op, at) is Ok,
        gen_op(defs, active, s, op, at)->Ok_0.module.is_prefix_of(module),
        consts_apart(defs, module, s.module.len() as int),
        module_fits(module),
        scope_within(scope, active),
        run_below(module, s.module.len() as int),
        stack.len() == s.stack.len(),
    ensures
        run_below(module, gen_op(defs, active, s, op, at)->Ok_0.module.len() as int),
        lands(
            op_meaning(defs, scope, module, op, stack, output),
            gen_op(defs, active, s, op, at)->Ok_0.stack.len(),
        ),
    decreases level(defs, active), op, 0nat,
{
    let t = gen_op(defs, active, s, op, at)->Ok_0;
    lemma_op_built(defs, active, s, op, at);
    assert(s.module.is_prefix_of(module));
    match op {
        OpView::Print => {
            let f = find_function(s.module, print_name(), 0)->Some_0;
            lemma_find_function(s.module, print_name(), 0);
            lemma_find_function_grows(s.module, module, print_name(), 0);
            lemma_call_lands(module, s, f, stack, output);
        },
        OpView::If(body) => {
            let inner = s.open_branch();
            lemma_open_branch_built(s);
            let rest = stack.drop_last();
            if stack.last() != 0 {
                lemma_ops_land(defs, active, scope, module, inner, body, 0, rest, output);
            } else {
                lemma_ops_land(defs, active, scope, module, inner, body, 0, rest, output);
            }
        },
        OpView::Word(w) => {
            match find_function(s.module, w, 0) {
                Some(f) => {
                    lemma_find_function(s.module, w, 0);
                    lemma_find_function_grows(s.module, module, w, 0);
                    lemma_call_lands(module, s, f, stack, output);
                },
                None => match find_const(defs, w, 0) {
                    Some(c) => {
                        lemma_find_const(defs, w, 0);
                        lemma_remaining_enter(defs, active, w, c);
                        lemma_const_is_no_function(defs, s.module, module, w);
                        lemma_scope_lacks(scope, active, w);
                        lemma_scope_push(scope, active, w);
                        lemma_ops_land(
                            defs,
                            active.push(w),
                            scope.push(w),
                            module,
                            s,
                            defs[c]->Const_0.ops,
                            0,
                            stack,
                            output,
                        );
                    },
                    None => {
                        let p = find_proc(defs, w, 0)->Some_0;
                        lemma_find_proc(defs, w, 0);
                        lemma_remaining_enter(defs, active, w, p);
                        lemma_proc_built(defs, active.push(w), s, defs[p]->Proc_0);
                        let after = gen_proc(defs, active.push(w), s, defs[p]->Proc_0)->Ok_0;
                        let f = find_function(after.module, w, 0)->Some_0;
                        lemma_find_function(after.module, w, 0);
                        lemma_call_built(after, f);
                        assert(after.module.is_prefix_of(module));
                        lemma_find_function_grows(after.module, module, w, 0);
                        lemma_proc_runs(defs, active.push(w), module, s, defs[p]->Proc_0);
                        lemma_call_lands(module, after, f, stack, output);
                    },
                },
            }
        },
        _ => {},
    }
}

/// The functions that compiling a procedure adds do not go wrong.
pub proof fn lemma_proc_runs(
    defs: Seq<DefView>,
    active: Seq<Seq<char>>,
    module: Seq<FunctionView>,
    s: GenState,
    proc: ProcView,
)
    requires
        gen_proc(defs, active, s, proc) is Ok,
        gen_proc(defs, active, s, proc)->Ok_0.module.is_prefix_of(module),
        consts_apart(defs, module, s.module.len() as int),
        module_fits(module),
        run_below(module, s.module.len() as int),
    ensures
        run_below(module, gen_proc(defs, active, s, proc)->Ok_0.module.len() as int),
    decreases level(defs, active) + 1, proc.ops, 0nat,
{
    let t = gen_proc(defs, active, s, proc)->Ok_0;
    let start = s.open_proc(proc);
    let body = gen_ops(defs, active, start, proc.ops, 0)->Ok_0;
    let at = body.module.len() as int;
    assert(t.module == body.module.push(body.finished(proc.outputs)));
    assert(body.module.is_prefix_of(module));
    assert(module[at] == t.module[at]);
    lemma_open_proc_ok(s, proc);
    lemma_ops_built(defs, active, start, proc.ops, 0);
    crate::simulation::lemma_finished(start, body, proc.outputs);
    assert(scope_within(Seq::empty(), active));
    let witness = Seq::new(proc.inputs.len(), |i: int| 0u64);
    lemma_ops_land(
        defs,
        active,
        Seq::empty(),
        module,
        start,
        proc.ops,
        0,
        witness,
        Seq::empty(),
    );
    assert forall|args: Seq<u64>, output: Seq<u64>|
        args.len() == module[at].params.len() implies !(#[trigger] call_function(
        module,
        at,
        args,
        output,
    ) is Invalid) by {
        lemma_ops_land(defs, active, Seq::empty(), module, start, proc.ops, 0, args, output);
        lemma_proc_simulated(defs, active, Seq::empty(), module, s, proc, args, output);
    }
    assert(runs(module, at));
}

/// The functions that compiling the procedures adds do not go
/// wrong.
pub proof fn lemma_all_runs(
    defs: Seq<DefView>,
    active: Seq<Seq<char>>,
    module: Seq<FunctionView>,
    s: GenState,
    from: int,
)
    requires
        names_apart(defs),
        state_ok(s),
        0 <= from,
        gen_all(defs, active, s, from) is Ok,
        gen_all(defs, active, s, from)->Ok_0.module.is_prefix_of(module),
        consts_apart(defs, module, s.module.len() as int),
        module_fits(module),
        run_below(module, s.module.len() as int),
    ensures
        run_below(module, gen_all(defs, active, s, from)->Ok_0.module.len() as int),
    decreases defs.len() - from,
{
    if from >= defs.len() {
    } else {
        let next = all_step(defs, active, s, from);
        lemma_all_step(defs, active, s, from);
        lemma_all_built(defs, active, next, from + 1);
        assert(next.module.is_prefix_of(module));
        match defs[from] {
            DefView::Proc(p) => {
                if find_function(s.module, p.name, 0) is None {
                    lemma_proc_runs(defs, active.push(p.name), module, s, p);
                }
            },
            DefView::Const(_) => {},
        }
        lemma_all_runs(defs, active, module, next, from + 1);
    }
}

/// The external `print` does not go wrong.
pub proof fn lemma_print_runs(module: Seq<FunctionView>)
    requires
        module.len() > 0,
        module[0] == crate::ir::print_decl(),
    ensures
        runs(module, 0),
{
    assert forall|args: Seq<u64>, output: Seq<u64>|
        args.len() == module[0].params.len() implies !(#[trigger] call_function(
        module,
        0,
        args,
        output,
    ) is Invalid) by {}
}

/// A module that held functions that do not go wrong holds only such
/// functions after the procedures have been compiled: each,
/// called with as many arguments as it has parameters, returns or faults.
///
/// This holds where no procedure has the name of a constant, and for
/// modules whose lengths fit in machine words, as all those do that the
/// generator builds.
pub proof fn compiled_functions_run(defs: Seq<DefView>, active: Seq<Seq<char>>, s: GenState)
    requires
        names_apart(defs),
        state_ok(s),
        gen_all(defs, active, s, 0) is Ok,
        module_fits(gen_all(defs, active, s, 0)->Ok_0.module),
        run_below(gen_all(defs, active, s, 0)->Ok_0.module, s.module.len() as int),
    ensures
        run_below(
            gen_all(defs, active, s, 0)->Ok_0.module,
            gen_all(defs, active, s, 0)->Ok_0.module.len() as int,
        ),
{
    let t = gen_all(defs, active, s, 0)->Ok_0;
    lemma_all_built(defs, active, s, 0);
    assert(t.module.is_prefix_of(t.module));
    lemma_all_runs(defs, active, t.module, s, 0);
}

} // verus!
