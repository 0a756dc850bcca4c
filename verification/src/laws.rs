//! What holds of everything that the generator builds.

use vstd::prelude::*;
use crate::ast::{DefView, OpView, ProcView};
use crate::ir::{find_function, BinOp, FunctionView, InstView, TermView, Value};
use crate::semantics::{
    all_defined, binary_result, call_function, quotient, remainder, run_from, run_inst, signed,
    signed_division_defined, value_of, values_of, with_results, wrap, Machine, Outcome, Progress,
    Stop,
};
use crate::faithful::{compiled_functions_are_faithful, covered, faithful_between, signed_at};
use crate::generation::gen_all;
use crate::ir::print_decl;
use crate::progress::{compiled_functions_run, lemma_print_runs, run_below};
use crate::simulation::{
    consts_apart, lemma_finished, lemma_op_built, lemma_open_branch_built, lemma_open_proc_ok, lemma_ops_built,
    lemma_proc_built, module_fits, names_apart, state_ok,
};
use crate::wellformed::lemma_initial_ok;
use crate::generation::{
    fault, find_const, find_proc, gen_call, gen_entry, gen_op, gen_ops, gen_proc,
    lemma_find_const, lemma_find_proc, lemma_remaining_enter, level, CompileErrorView,
    ErrorKindView, GenState,
};

verus! {

/// `swap` followed by `swap` changes nothing: neither the stack nor the
/// function that is being built.
pub proof fn swap_twice_is_identity(defs: Seq<DefView>, active: Seq<Seq<char>>, s: GenState)
    requires
        s.stack.len() >= 2,
    ensures
        gen_ops(defs, active, s, seq![OpView::Swap, OpView::Swap], 0) == Ok::<
            GenState,
            CompileErrorView,
        >(s),
{
    reveal_with_fuel(gen_ops, 3);
    let ops = seq![OpView::Swap, OpView::Swap];
    let n = s.stack.len() as int;
    let once = s.with_stack(s.stack.take(n - 2).push(s.stack[n - 1]).push(s.stack[n - 2]));
    assert(gen_op(defs, active, s, ops[0], 0) == Ok::<GenState, CompileErrorView>(once));
    let m = once.stack.len() as int;
    let twice = once.with_stack(
        once.stack.take(m - 2).push(once.stack[m - 1]).push(once.stack[m - 2]),
    );
    assert(gen_op(defs, active, once, ops[1], 1) == Ok::<GenState, CompileErrorView>(twice));
    assert(twice.stack =~= s.stack);
}

/// A procedure without inputs whose body is one literal becomes a function
/// of its name, without parameters, that returns that literal and prints
/// nothing: the literal as it is, for every value of 64 bits. This holds
/// of every procedure of whose name the module has no function yet.
pub proof fn literal_is_returned(
    defs: Seq<DefView>,
    active: Seq<Seq<char>>,
    s: GenState,
    proc: ProcView,
    n: u64,
    output: Seq<u64>,
)
    requires
        proc.ops == seq![OpView::Integer(n)],
        proc.inputs.len() == 0,
        proc.outputs.len() <= 1,
        find_function(s.module, proc.name, 0) is None,
        !active.contains(proc.name),
    ensures
        gen_entry(defs, active, s, proc) matches Ok(after) && after.module.len() == s.module.len()
            + 1 && after.module.last().name == proc.name && after.module.last().params.len() == 0
            && find_function(after.module, proc.name, 0) == Some(s.module.len() as int)
            && call_function(after.module, s.module.len() as int, Seq::empty(), output) == (
        Outcome::Returned { values: seq![n], output }),
{
    reveal_with_fuel(gen_ops, 3);
    let inner = active.push(proc.name);
    let start = s.open_proc(proc);
    let body = start.with_stack(start.stack.push(Value::Const(n)));
    assert(gen_op(defs, inner, start, proc.ops[0], 0) == Ok::<GenState, CompileErrorView>(body));
    assert(gen_ops(defs, inner, start, proc.ops, 0) == Ok::<GenState, CompileErrorView>(body));
    assert(body.stack =~= seq![Value::Const(n)]);
    let f = body.finished(proc.outputs);
    let module = s.module.push(f);
    let at = s.module.len() as int;
    assert(module[at] == f);
    let machine = Machine { regs: Map::empty(), output };
    assert(value_of(Value::Const(n), Seq::empty(), machine.regs) == Some(n));
    assert(values_of(seq![Value::Const(n)], Seq::empty(), machine.regs) =~= seq![n]);
    assert(run_from(module, f, at, 0, 0, Seq::empty(), machine) == (Stop::Returned {
        values: seq![n],
        output,
    }));
    // The function is the first of its name.
    crate::ir::lemma_find_function(s.module, proc.name, 0);
    crate::ir::lemma_find_function(module, proc.name, 0);
    assert(forall|j: int| 0 <= j < at ==> module[j] == s.module[j]);
}

/// A procedure of whose name the module has a function already is passed
/// over: nothing changes, whatever its body holds. So it is with a
/// procedure named `print` in every module that the generator builds, and
/// with the second procedure of a name.
pub proof fn known_name_is_passed_over(
    defs: Seq<DefView>,
    active: Seq<Seq<char>>,
    s: GenState,
    proc: ProcView,
)
    requires
        find_function(s.module, proc.name, 0) is Some,
    ensures
        gen_entry(defs, active, s, proc) == Ok::<GenState, CompileErrorView>(s),
{
}

/// A word that names no function, constant or procedure has its
/// compilation fail, and the failure names the word.
pub proof fn undefined_word_fails(
    defs: Seq<DefView>,
    active: Seq<Seq<char>>,
    s: GenState,
    word: Seq<char>,
    at: int,
)
    requires
        find_function(s.module, word, 0) is None,
        find_const(defs, word, 0) is None,
        find_proc(defs, word, 0) is None,
    ensures
        gen_op(defs, active, s, OpView::Word(word), at) == Err::<GenState, CompileErrorView>(
            fault(active, ErrorKindView::UnresolvedReference(word), at),
        ),
{
}

/// A reference to a constant is compiled as the constant's operations
/// are, in place: into the same block, on the same stack.
pub proof fn constant_is_inlined(
    defs: Seq<DefView>,
    active: Seq<Seq<char>>,
    s: GenState,
    word: Seq<char>,
    at: int,
)
    requires
        find_function(s.module, word, 0) is None,
        find_const(defs, word, 0) is Some,
        !active.contains(word),
    ensures
        gen_op(defs, active, s, OpView::Word(word), at) == gen_ops(
            defs,
            active.push(word),
            s,
            defs[find_const(defs, word, 0).unwrap()]->Const_0.ops,
            0,
        ),
{
}

/// A reference to a function of the module takes as many values from the
/// stack as the function has parameters and leaves as many as it has
/// results: one of two inputs and one output takes two and leaves one.
pub proof fn call_takes_inputs_and_leaves_outputs(
    defs: Seq<DefView>,
    active: Seq<Seq<char>>,
    s: GenState,
    word: Seq<char>,
    at: int,
)
    requires
        find_function(s.module, word, 0) matches Some(f) && s.stack.len() >= s.module[f].params.len(),
    ensures
        gen_op(defs, active, s, OpView::Word(word), at) matches Ok(after) && ({
            let f = find_function(s.module, word, 0).unwrap();
            let inputs = s.module[f].params.len();
            let outputs = s.module[f].results.len();
            &&& after.stack.len() == s.stack.len() - inputs + outputs
            &&& after.stack.take(s.stack.len() - inputs) == s.stack.take(s.stack.len() - inputs)
            &&& after.module == s.module
        }),
{
    let f = find_function(s.module, word, 0).unwrap();
    let after = s.call(f);
    assert(gen_call(active, s, f, at) == Ok::<GenState, CompileErrorView>(after));
    let kept = s.stack.len() - s.module[f].params.len();
    assert(after.stack.take(kept) =~= s.stack.take(kept));
}

/// A procedure of one input whose body is `dup +` becomes a function that
/// returns twice its argument, reduced to 64 bits.
pub proof fn dup_add_doubles(
    defs: Seq<DefView>,
    active: Seq<Seq<char>>,
    s: GenState,
    proc: ProcView,
    v: u64,
    output: Seq<u64>,
)
    requires
        proc.ops == seq![OpView::Dup, OpView::Add],
        proc.inputs.len() == 1,
        proc.outputs.len() <= 1,
        find_function(s.module, proc.name, 0) is None,
        !active.contains(proc.name),
    ensures
        gen_entry(defs, active, s, proc) matches Ok(after) && after.module.len() == s.module.len()
            + 1 && call_function(after.module, s.module.len() as int, seq![v], output) == (
        Outcome::Returned { values: seq![wrap(2 * v)], output }),
{
    reveal_with_fuel(gen_ops, 4);
    let inner = active.push(proc.name);
    let start = s.open_proc(proc);
    let p = Value::Param(0);
    assert(start.stack =~= seq![p]);
    let dup = start.with_stack(start.stack.push(p));
    assert(gen_op(defs, inner, start, proc.ops[0], 0) == Ok::<GenState, CompileErrorView>(dup));
    let sum = dup.binary(BinOp::Add);
    assert(gen_op(defs, inner, dup, proc.ops[1], 1) == Ok::<GenState, CompileErrorView>(sum));
    assert(gen_ops(defs, inner, start, proc.ops, 0) == Ok::<GenState, CompileErrorView>(sum));
    let r = Value::Reg { block: 0, inst: 0, slot: 0 };
    assert(sum.stack =~= seq![r]);
    let f = sum.finished(proc.outputs);
    let module = s.module.push(f);
    let at = s.module.len() as int;
    assert(module[at] == f);
    assert(f.blocks[0].insts =~= seq![InstView::Binary { op: BinOp::Add, lhs: p, rhs: p }]);
    let args = seq![v];
    let machine = Machine { regs: Map::empty(), output };
    let after = Machine { regs: with_results(machine.regs, 0, 0, seq![wrap(v + v)]), output };
    assert(run_inst(module, at, f.blocks[0].insts[0], 0, 0, args, machine) == Progress::Next(
        after,
    ));
    assert(value_of(r, args, after.regs) == Some(wrap(2 * v)));
    assert(values_of(seq![r], args, after.regs) =~= seq![wrap(2 * v)]);
    assert(run_from(module, f, at, 0, 1, args, after) == (Stop::Returned {
        values: seq![wrap(2 * v)],
        output,
    }));
    assert(run_from(module, f, at, 0, 0, args, machine) == (Stop::Returned {
        values: seq![wrap(2 * v)],
        output,
    }));
}

/// What a procedure of two inputs whose body is one division with
/// remainder becomes: a function of one block that holds the quotient
/// instruction, then the remainder instruction, and returns both results.
proof fn lemma_division_function(
    defs: Seq<DefView>,
    active: Seq<Seq<char>>,
    s: GenState,
    proc: ProcView,
    op: OpView,
    first: BinOp,
    second: BinOp,
)
    requires
        proc.ops == seq![op],
        op == OpView::DivMod && first == BinOp::UDiv && second == BinOp::URem || op
            == OpView::IDivMod && first == BinOp::SDiv && second == BinOp::SRem,
        proc.inputs.len() == 2,
        proc.outputs.len() == 0 || proc.outputs.len() == 2,
        find_function(s.module, proc.name, 0) is None,
        !active.contains(proc.name),
    ensures
        gen_entry(defs, active, s, proc) matches Ok(after) && after.module.len() == s.module.len()
            + 1 && ({
            let f = after.module[s.module.len() as int];
            &&& f.params.len() == 2
            &&& f.results.len() == 2
            &&& f.blocks.len() == 1
            &&& f.blocks[0].insts == seq![
                InstView::Binary { op: first, lhs: Value::Param(0), rhs: Value::Param(1) },
                InstView::Binary { op: second, lhs: Value::Param(0), rhs: Value::Param(1) },
            ]
            &&& f.blocks[0].term == TermView::Return(
                seq![
                    Value::Reg { block: 0, inst: 0, slot: 0 },
                    Value::Reg { block: 0, inst: 1, slot: 0 },
                ],
            )
        }),
{
    reveal_with_fuel(gen_ops, 3);
    let inner = active.push(proc.name);
    let start = s.open_proc(proc);
    assert(start.stack =~= seq![Value::Param(0), Value::Param(1)]);
    let done = start.divide(first, second);
    assert(gen_op(defs, inner, start, proc.ops[0], 0) == Ok::<GenState, CompileErrorView>(done));
    assert(gen_ops(defs, inner, start, proc.ops, 0) == Ok::<GenState, CompileErrorView>(done));
    assert(done.stack =~= seq![
        Value::Reg { block: 0, inst: 0, slot: 0 },
        Value::Reg { block: 0, inst: 1, slot: 0 },
    ]);
    let f = done.finished(proc.outputs);
    assert(s.module.push(f)[s.module.len() as int] == f);
    assert(f.blocks[0].insts =~= seq![
        InstView::Binary { op: first, lhs: Value::Param(0), rhs: Value::Param(1) },
        InstView::Binary { op: second, lhs: Value::Param(0), rhs: Value::Param(1) },
    ]);
}

/// What a function of one block that divides its first parameter by its
/// second, with remainder, returns.
proof fn lemma_division_runs(
    module: Seq<FunctionView>,
    at: int,
    first: BinOp,
    second: BinOp,
    x: u64,
    y: u64,
    q: u64,
    r: u64,
    output: Seq<u64>,
)
    requires
        0 <= at < module.len(),
        module[at].params.len() == 2,
        module[at].results.len() == 2,
        module[at].blocks.len() == 1,
        module[at].blocks[0].insts == seq![
            InstView::Binary { op: first, lhs: Value::Param(0), rhs: Value::Param(1) },
            InstView::Binary { op: second, lhs: Value::Param(0), rhs: Value::Param(1) },
        ],
        module[at].blocks[0].term == TermView::Return(
            seq![Value::Reg { block: 0, inst: 0, slot: 0 }, Value::Reg { block: 0, inst: 1, slot: 0 }],
        ),
        binary_result(first, x, y) == Some(q),
        binary_result(second, x, y) == Some(r),
    ensures
        call_function(module, at, seq![x, y], output) == (Outcome::Returned {
            values: seq![q, r],
            output,
        }),
{
    let args = seq![x, y];
    let f = module[at];
    let r0 = Value::Reg { block: 0, inst: 0, slot: 0 };
    let r1 = Value::Reg { block: 0, inst: 1, slot: 0 };
    let m0 = Machine { regs: Map::empty(), output };
    let m1 = Machine { regs: with_results(m0.regs, 0, 0, seq![q]), output };
    let m2 = Machine { regs: with_results(m1.regs, 0, 1, seq![r]), output };
    assert(run_inst(module, at, f.blocks[0].insts[0], 0, 0, args, m0) == Progress::Next(m1));
    assert(run_inst(module, at, f.blocks[0].insts[1], 0, 1, args, m1) == Progress::Next(m2));
    assert(value_of(r0, args, m2.regs) == Some(q));
    assert(value_of(r1, args, m2.regs) == Some(r));
    assert(all_defined(seq![r0, r1], args, m2.regs));
    assert(values_of(seq![r0, r1], args, m2.regs) =~= seq![q, r]);
    let done = Stop::Returned { values: seq![q, r], output };
    assert(run_from(module, f, at, 0, 2, args, m2) == done);
    assert(run_from(module, f, at, 0, 1, args, m1) == done);
    assert(run_from(module, f, at, 0, 0, args, m0) == done);
}

/// A procedure of two inputs whose body is `divmod` becomes a function
/// that returns, for a dividend `x` and a divisor `y` other than zero, the
/// unsigned quotient and then the unsigned remainder; the quotient times
/// `y` plus the remainder is `x`.
pub proof fn divmod_divides(
    defs: Seq<DefView>,
    active: Seq<Seq<char>>,
    s: GenState,
    proc: ProcView,
    x: u64,
    y: u64,
    output: Seq<u64>,
)
    requires
        proc.ops == seq![OpView::DivMod],
        proc.inputs.len() == 2,
        proc.outputs.len() == 0 || proc.outputs.len() == 2,
        find_function(s.module, proc.name, 0) is None,
        !active.contains(proc.name),
        y != 0,
    ensures
        gen_entry(defs, active, s, proc) matches Ok(after) && call_function(
            after.module,
            s.module.len() as int,
            seq![x, y],
            output,
        ) == (Outcome::Returned { values: seq![(x / y) as u64, (x % y) as u64], output }),
        (x / y) * y + x % y == x,
        0 <= x / y <= x,
        0 <= x % y < y,
{
    lemma_division_function(defs, active, s, proc, OpView::DivMod, BinOp::UDiv, BinOp::URem);
    let after = gen_entry(defs, active, s, proc)->Ok_0;
    vstd::arithmetic::div_mod::lemma_fundamental_div_mod(x as int, y as int);
    vstd::arithmetic::div_mod::lemma_div_pos_is_pos(x as int, y as int);
    vstd::arithmetic::div_mod::lemma_div_is_ordered_by_denominator(x as int, 1, y as int);
    vstd::arithmetic::div_mod::lemma_div_basics(x as int);
    vstd::arithmetic::div_mod::lemma_mod_bound(x as int, y as int);
    assert((x / y) * y == y * (x / y)) by (nonlinear_arith);
    lemma_division_runs(
        after.module,
        s.module.len() as int,
        BinOp::UDiv,
        BinOp::URem,
        x,
        y,
        (x / y) as u64,
        (x % y) as u64,
        output,
    );
}

/// The quotient rounded towards zero and its remainder: their bounds, and
/// how they make up the dividend.
pub proof fn lemma_quotient_remainder(a: int, b: int)
    requires
        b != 0,
    ensures
        quotient(a, b) * b + remainder(a, b) == a,
        a >= 0 ==> 0 <= remainder(a, b),
        a <= 0 ==> remainder(a, b) <= 0,
        b > 0 ==> -b < remainder(a, b) < b,
        b < 0 ==> b < remainder(a, b) < -b,
        a >= 0 ==> -a <= quotient(a, b) <= a,
        a <= 0 ==> a <= quotient(a, b) <= -a,
{
    let aa = if a >= 0 {
        a
    } else {
        -a
    };
    let bb = if b > 0 {
        b
    } else {
        -b
    };
    vstd::arithmetic::div_mod::lemma_fundamental_div_mod(aa, bb);
    vstd::arithmetic::div_mod::lemma_div_pos_is_pos(aa, bb);
    vstd::arithmetic::div_mod::lemma_div_is_ordered_by_denominator(aa, 1, bb);
    vstd::arithmetic::div_mod::lemma_div_basics(aa);
    vstd::arithmetic::div_mod::lemma_mod_bound(aa, bb);
    let q = aa / bb;
    let r = aa % bb;
    assert(aa == bb * q + r);
    assert(0 <= q <= aa);
    assert(0 <= r < bb);
    if a >= 0 {
        if b > 0 {
            assert(quotient(a, b) == q);
            assert(q * b == bb * q) by (nonlinear_arith)
                requires
                    b == bb,
            ;
        } else {
            assert(quotient(a, b) == -q);
            assert((-q) * b == bb * q) by (nonlinear_arith)
                requires
                    b == -bb,
            ;
        }
    } else {
        if b > 0 {
            assert(quotient(a, b) == -q);
            assert((-q) * b == -(bb * q)) by (nonlinear_arith)
                requires
                    b == bb,
            ;
        } else {
            assert(quotient(a, b) == q);
            assert(q * b == -(bb * q)) by (nonlinear_arith)
                requires
                    b == -bb,
            ;
        }
    }
}

/// A signed number that fits in 64 bits is what its 64-bit pattern reads as.
pub proof fn lemma_signed_wrap(k: int)
    requires
        -0x8000_0000_0000_0000 <= k < 0x8000_0000_0000_0000,
    ensures
        signed(wrap(k)) == k,
{
    if k >= 0 {
        vstd::arithmetic::div_mod::lemma_small_mod(k as nat, 0x1_0000_0000_0000_0000);
    } else {
        vstd::arithmetic::div_mod::lemma_mod_add_multiples_vanish(k, 0x1_0000_0000_0000_0000);
        vstd::arithmetic::div_mod::lemma_small_mod(
            (k + 0x1_0000_0000_0000_0000) as nat,
            0x1_0000_0000_0000_0000,
        );
    }
}

/// A procedure of two inputs whose body is `idivmod` becomes a function
/// that returns, for a dividend `x` and a divisor `y` whose signed
/// division is defined, the signed quotient rounded towards zero and then
/// the signed remainder; read as signed numbers, the quotient times `y`
/// plus the remainder is `x`.
pub proof fn idivmod_divides(
    defs: Seq<DefView>,
    active: Seq<Seq<char>>,
    s: GenState,
    proc: ProcView,
    x: u64,
    y: u64,
    output: Seq<u64>,
)
    requires
        proc.ops == seq![OpView::IDivMod],
        proc.inputs.len() == 2,
        proc.outputs.len() == 0 || proc.outputs.len() == 2,
        find_function(s.module, proc.name, 0) is None,
        !active.contains(proc.name),
        signed_division_defined(x, y),
    ensures
        gen_entry(defs, active, s, proc) matches Ok(after) && call_function(
            after.module,
            s.module.len() as int,
            seq![x, y],
            output,
        ) == (Outcome::Returned {
            values: seq![
                wrap(quotient(signed(x), signed(y))),
                wrap(remainder(signed(x), signed(y))),
            ],
            output,
        }),
        signed(wrap(quotient(signed(x), signed(y)))) == quotient(signed(x), signed(y)),
        signed(wrap(remainder(signed(x), signed(y)))) == remainder(signed(x), signed(y)),
        quotient(signed(x), signed(y)) * signed(y) + remainder(signed(x), signed(y)) == signed(x),
{
    lemma_division_function(defs, active, s, proc, OpView::IDivMod, BinOp::SDiv, BinOp::SRem);
    let after = gen_entry(defs, active, s, proc)->Ok_0;
    let a = signed(x);
    let b = signed(y);
    lemma_quotient_remainder(a, b);
    if a == -0x8000_0000_0000_0000 {
        assert(b != -1);
        lemma_quotient_bound(a, b);
    }
    lemma_signed_wrap(quotient(a, b));
    lemma_signed_wrap(remainder(a, b));
    lemma_division_runs(
        after.module,
        s.module.len() as int,
        BinOp::SDiv,
        BinOp::SRem,
        x,
        y,
        wrap(quotient(a, b)),
        wrap(remainder(a, b)),
        output,
    );
}

/// Dividing a negative number by anything but one and minus one gives a
/// quotient that is smaller in size.
proof fn lemma_quotient_bound(a: int, b: int)
    requires
        a < 0,
        b != 0,
        b != -1,
    ensures
        quotient(a, b) < -a,
{
    let bb = if b > 0 {
        b
    } else {
        -b
    };
    if bb == 1 {
        vstd::arithmetic::div_mod::lemma_div_basics(-a);
    } else {
        vstd::arithmetic::div_mod::lemma_div_decreases(-a, bb);
        vstd::arithmetic::div_mod::lemma_div_pos_is_pos(-a, bb);
    }
}

/// No function from index `base` on has one of the names.
pub open spec fn names_avoided(module: Seq<FunctionView>, base: int, names: Seq<Seq<char>>) -> bool {
    forall|f: int| base <= f < module.len() ==> !names.contains((#[trigger] module[f]).name)
}

/// Compiling operations adds no function with the name of a definition
/// that is being compiled.
pub proof fn lemma_ops_avoid(
    defs: Seq<DefView>,
    active: Seq<Seq<char>>,
    s: GenState,
    ops: Seq<OpView>,
    from: int,
)
    requires
        state_ok(s),
        gen_ops(defs, active, s, ops, from) is Ok,
    ensures
        names_avoided(gen_ops(defs, active, s, ops, from)->Ok_0.module, s.module.len() as int, active),
    decreases level(defs, active), ops, ops.len() - from,
{
    if from < 0 || from >= ops.len() {
    } else {
        let next = gen_op(defs, active, s, ops[from], from)->Ok_0;
        let t = gen_ops(defs, active, next, ops, from + 1)->Ok_0;
        lemma_op_built(defs, active, s, ops[from], from);
        lemma_ops_built(defs, active, next, ops, from + 1);
        lemma_op_avoids(defs, active, s, ops[from], from);
        lemma_ops_avoid(defs, active, next, ops, from + 1);
        assert forall|f: int| s.module.len() <= f < t.module.len() implies !active.contains(
            (#[trigger] t.module[f]).name,
        ) by {
            if f < next.module.len() {
                assert(t.module[f] == next.module[f]);
            }
        }
    }
}

/// Compiling one operation adds no function with the name of a
/// definition that is being compiled.
pub proof fn lemma_op_avoids(
    defs: Seq<DefView>,
    active: Seq<Seq<char>>,
    s: GenState,
    op: OpView,
    at: int,
)
    requires
        state_ok(s),
        gen_op(defs, active, s, op, at) is Ok,
    ensures
        names_avoided(gen_op(defs, active, s, op, at)->Ok_0.module, s.module.len() as int, active),
    decreases level(defs, active), op, 0nat,
{
    match op {
        OpView::If(body) => {
            let inner = s.open_branch();
            lemma_open_branch_built(s);
            lemma_ops_avoid(defs, active, inner, body, 0);
        },
        OpView::Word(w) => {
            match find_function(s.module, w, 0) {
                Some(f) => {},
                None => match find_const(defs, w, 0) {
                    Some(c) => {
                        lemma_find_const(defs, w, 0);
                        lemma_remaining_enter(defs, active, w, c);
                        lemma_ops_avoid(defs, active.push(w), s, defs[c]->Const_0.ops, 0);
                        let t = gen_op(defs, active, s, op, at)->Ok_0;
                        assert forall|f: int| s.module.len() <= f < t.module.len() implies
                            !active.contains((#[trigger] t.module[f]).name) by {
                            lemma_pushed_contains(active, w, t.module[f].name);
                        }
                    },
                    None => {
                        let p = find_proc(defs, w, 0)->Some_0;
                        lemma_find_proc(defs, w, 0);
                        lemma_remaining_enter(defs, active, w, p);
                        lemma_proc_avoids(defs, active.push(w), s, defs[p]->Proc_0);
                        let t = gen_proc(defs, active.push(w), s, defs[p]->Proc_0)->Ok_0;
                        assert forall|f: int| s.module.len() <= f < t.module.len() implies
                            !active.contains((#[trigger] t.module[f]).name) by {
                            if f < t.module.len() - 1 {
                                lemma_pushed_contains(active, w, t.module[f].name);
                            }
                        }
                    },
                },
            }
        },
        _ => {},
    }
}

/// A name of a list is a name of the list with one more.
pub proof fn lemma_pushed_contains(names: Seq<Seq<char>>, name: Seq<char>, other: Seq<char>)
    ensures
        names.contains(other) ==> names.push(name).contains(other),
{
    if names.contains(other) {
        let k = choose|k: int| 0 <= k < names.len() && names[k] == other;
        assert(names.push(name)[k] == other);
    }
}

/// Compiling a procedure adds, before the function of its name, no
/// function with the name of a definition that is being compiled; the
/// function of its name comes last and has its signature.
pub proof fn lemma_proc_avoids(
    defs: Seq<DefView>,
    active: Seq<Seq<char>>,
    s: GenState,
    proc: ProcView,
)
    requires
        gen_proc(defs, active, s, proc) is Ok,
    ensures
        ({
            let module = gen_proc(defs, active, s, proc)->Ok_0.module;
            &&& module.len() > s.module.len()
            &&& s.module.is_prefix_of(module)
            &&& module.last().name == proc.name
            &&& module.last().params == proc.inputs
            &&& proc.outputs.len() > 0 ==> module.last().results == proc.outputs
            &&& forall|f: int|
                s.module.len() <= f < module.len() - 1 ==> !active.contains(
                    (#[trigger] module[f]).name,
                )
        }),
    decreases level(defs, active) + 1, proc.ops, 0nat,
{
    let start = s.open_proc(proc);
    let body = gen_ops(defs, active, start, proc.ops, 0)->Ok_0;
    let t = gen_proc(defs, active, s, proc)->Ok_0;
    lemma_open_proc_ok(s, proc);
    lemma_ops_built(defs, active, start, proc.ops, 0);
    lemma_finished(start, body, proc.outputs);
    lemma_ops_avoid(defs, active, start, proc.ops, 0);
    assert(t.module == body.module.push(body.finished(proc.outputs)));
    assert forall|f: int| s.module.len() <= f < t.module.len() - 1 implies !active.contains(
        (#[trigger] t.module[f]).name,
    ) by {
        assert(t.module[f] == body.module[f]);
    }
}

/// A procedure that is compiled becomes a function with the
/// procedure's name and inputs, and with its outputs where it declares
/// any.
pub proof fn procedure_keeps_its_signature(
    defs: Seq<DefView>,
    active: Seq<Seq<char>>,
    s: GenState,
    proc: ProcView,
)
    requires
        find_function(s.module, proc.name, 0) is None,
        gen_entry(defs, active, s, proc) is Ok,
    ensures
        ({
            let module = gen_entry(defs, active, s, proc)->Ok_0.module;
            &&& module.len() > s.module.len()
            &&& module.last().name == proc.name
            &&& module.last().params == proc.inputs
            &&& proc.outputs.len() > 0 ==> module.last().results == proc.outputs
        }),
{
    lemma_proc_avoids(defs, active.push(proc.name), s, proc);
}

/// A reference to a procedure that is yet to be compiled takes as many
/// values from the stack as the procedure has inputs and leaves as many as
/// it declares outputs: for a procedure of two inputs and one output it
/// takes two and leaves one.
pub proof fn reference_takes_inputs_and_leaves_outputs(
    defs: Seq<DefView>,
    active: Seq<Seq<char>>,
    s: GenState,
    word: Seq<char>,
    at: int,
)
    requires
        state_ok(s),
        find_function(s.module, word, 0) is None,
        find_const(defs, word, 0) is None,
        find_proc(defs, word, 0) matches Some(k) && defs[k]->Proc_0.outputs.len() > 0
            && s.stack.len() >= defs[k]->Proc_0.inputs.len(),
        !active.contains(word),
        gen_proc(defs, active.push(word), s, defs[find_proc(defs, word, 0)->Some_0]->Proc_0) is Ok,
    ensures
        gen_op(defs, active, s, OpView::Word(word), at) matches Ok(after) && ({
            let proc = defs[find_proc(defs, word, 0)->Some_0]->Proc_0;
            let kept = s.stack.len() - proc.inputs.len();
            &&& after.stack.len() == kept + proc.outputs.len()
            &&& after.stack.take(kept) == s.stack.take(kept)
            &&& after.func.blocks[s.cur].insts == s.func.blocks[s.cur].insts.push(
                InstView::Call {
                    callee: after.module.len() - 1,
                    args: s.stack.subrange(kept, s.stack.len() as int),
                },
            )
            &&& find_function(after.module, word, 0) == Some(after.module.len() - 1)
        }),
{
    let k = find_proc(defs, word, 0)->Some_0;
    let proc = defs[k]->Proc_0;
    lemma_find_proc(defs, word, 0);
    let inner = active.push(word);
    let built = gen_proc(defs, inner, s, proc)->Ok_0;
    lemma_proc_avoids(defs, inner, s, proc);
    lemma_proc_built(defs, inner, s, proc);
    let last = built.module.len() - 1;
    // The function of that name is the one that was just added.
    assert(inner[active.len() as int] == word);
    crate::ir::lemma_find_function(s.module, word, 0);
    crate::ir::lemma_find_function(built.module, word, 0);
    assert(find_function(built.module, word, 0) == Some(last)) by {
        let found = find_function(built.module, word, 0);
        if found is Some {
            let f = found->Some_0;
            if f < s.module.len() {
                assert(built.module[f] == s.module[f]);
            } else if f < last {
                assert(!inner.contains(built.module[f].name));
            }
        } else {
            assert(built.module[last].name == word);
        }
    }
    let after = built.call(last);
    assert(gen_call(active, built, last, at) == Ok::<GenState, CompileErrorView>(after));
    let kept = s.stack.len() - proc.inputs.len();
    assert(after.stack.take(kept) =~= s.stack.take(kept));
}

/// A reference to a procedure that declares outputs, whether its function
/// is in the module already or is yet to be compiled, takes as many values
/// from the stack as the procedure has inputs and leaves as many as it
/// declares outputs, and appends one call of the function of that name,
/// to which it hands the values taken, in the order in which they were
/// pushed.
///
/// A function that is in the module already is taken to have the
/// signature of the procedure, as every function has that the generator
/// added; one that is yet to be compiled is taken to compile.
pub proof fn procedure_reference_takes_inputs_and_leaves_outputs(
    defs: Seq<DefView>,
    active: Seq<Seq<char>>,
    s: GenState,
    word: Seq<char>,
    at: int,
)
    requires
        state_ok(s),
        find_proc(defs, word, 0) matches Some(k) && defs[k]->Proc_0.outputs.len() > 0
            && s.stack.len() >= defs[k]->Proc_0.inputs.len(),
        match find_function(s.module, word, 0) {
            Some(f) => signed_at(defs, s.module, f),
            None => find_const(defs, word, 0) is None && !active.contains(word) && gen_proc(
                defs,
                active.push(word),
                s,
                defs[find_proc(defs, word, 0)->Some_0]->Proc_0,
            ) is Ok,
        },
    ensures
        gen_op(defs, active, s, OpView::Word(word), at) matches Ok(after) && ({
            let proc = defs[find_proc(defs, word, 0)->Some_0]->Proc_0;
            let kept = s.stack.len() - proc.inputs.len();
            &&& after.stack.len() == kept + proc.outputs.len()
            &&& after.stack.take(kept) == s.stack.take(kept)
            &&& find_function(after.module, word, 0) matches Some(callee)
                && after.func.blocks[s.cur].insts == s.func.blocks[s.cur].insts.push(
                InstView::Call { callee, args: s.stack.subrange(kept, s.stack.len() as int) },
            )
        }),
{
    match find_function(s.module, word, 0) {
        Some(f) => {
            crate::ir::lemma_find_function(s.module, word, 0);
            call_takes_inputs_and_leaves_outputs(defs, active, s, word, at);
        },
        None => {
            reference_takes_inputs_and_leaves_outputs(defs, active, s, word, at);
        },
    }
}

/// No function before function `f` has its name.
pub open spec fn no_earlier(module: Seq<FunctionView>, f: int) -> bool {
    forall|j: int| 0 <= j < f ==> (#[trigger] module[j]).name != module[f].name
}

/// Every function from index `from` on has a name that no function before
/// it has.
pub open spec fn names_new(module: Seq<FunctionView>, from: int) -> bool {
    forall|f: int| from <= f < module.len() ==> #[trigger] no_earlier(module, f)
}

/// Functions with new names stay so when functions with new names follow.
pub proof fn lemma_names_new_trans(
    s: Seq<FunctionView>,
    t: Seq<FunctionView>,
    u: Seq<FunctionView>,
)
    requires
        s.is_prefix_of(t),
        t.is_prefix_of(u),
        names_new(t, s.len() as int),
        names_new(u, t.len() as int),
    ensures
        names_new(u, s.len() as int),
{
    assert forall|f: int| s.len() <= f < u.len() implies #[trigger] no_earlier(u, f) by {
        if f < t.len() {
            assert(no_earlier(t, f));
            assert(u[f] == t[f]);
            assert forall|j: int| 0 <= j < f implies (#[trigger] u[j]).name != u[f].name by {
                assert(u[j] == t[j]);
            }
        }
    }
}

/// Compiling operations adds only functions of names that the module did
/// not hold.
pub proof fn lemma_ops_new(
    defs: Seq<DefView>,
    active: Seq<Seq<char>>,
    s: GenState,
    ops: Seq<OpView>,
    from: int,
)
    requires
        state_ok(s),
        gen_ops(defs, active, s, ops, from) is Ok,
    ensures
        names_new(gen_ops(defs, active, s, ops, from)->Ok_0.module, s.module.len() as int),
    decreases level(defs, active), ops, ops.len() - from,
{
    if from < 0 || from >= ops.len() {
    } else {
        let next = gen_op(defs, active, s, ops[from], from)->Ok_0;
        let t = gen_ops(defs, active, next, ops, from + 1)->Ok_0;
        lemma_op_built(defs, active, s, ops[from], from);
        lemma_ops_built(defs, active, next, ops, from + 1);
        lemma_op_new(defs, active, s, ops[from], from);
        lemma_ops_new(defs, active, next, ops, from + 1);
        lemma_names_new_trans(s.module, next.module, t.module);
    }
}

/// Compiling one operation adds only functions of names that the module
/// did not hold.
pub proof fn lemma_op_new(
    defs: Seq<DefView>,
    active: Seq<Seq<char>>,
    s: GenState,
    op: OpView,
    at: int,
)
    requires
        state_ok(s),
        gen_op(defs, active, s, op, at) is Ok,
    ensures
        names_new(gen_op(defs, active, s, op, at)->Ok_0.module, s.module.len() as int),
    decreases level(defs, active), op, 0nat,
{
    match op {
        OpView::If(body) => {
            let inner = s.open_branch();
            lemma_open_branch_built(s);
            lemma_ops_new(defs, active, inner, body, 0);
        },
        OpView::Word(w) => {
            match find_function(s.module, w, 0) {
                Some(f) => {},
                None => match find_const(defs, w, 0) {
                    Some(c) => {
                        lemma_find_const(defs, w, 0);
                        lemma_remaining_enter(defs, active, w, c);
                        lemma_ops_new(defs, active.push(w), s, defs[c]->Const_0.ops, 0);
                    },
                    None => {
                        let p = find_proc(defs, w, 0)->Some_0;
                        lemma_find_proc(defs, w, 0);
                        lemma_remaining_enter(defs, active, w, p);
                        assert(active.push(w)[active.len() as int] == w);
                        lemma_proc_new(defs, active.push(w), s, defs[p]->Proc_0);
                    },
                },
            }
        },
        _ => {},
    }
}

/// Compiling a procedure of whose name the module holds no function adds
/// only functions of names that the module did not hold.
pub proof fn lemma_proc_new(
    defs: Seq<DefView>,
    active: Seq<Seq<char>>,
    s: GenState,
    proc: ProcView,
)
    requires
        active.contains(proc.name),
        find_function(s.module, proc.name, 0) is None,
        gen_proc(defs, active, s, proc) is Ok,
    ensures
        names_new(gen_proc(defs, active, s, proc)->Ok_0.module, s.module.len() as int),
    decreases level(defs, active) + 1, proc.ops, 0nat,
{
    let start = s.open_proc(proc);
    let body = gen_ops(defs, active, start, proc.ops, 0)->Ok_0;
    let t = gen_proc(defs, active, s, proc)->Ok_0;
    let last = t.module.len() - 1;
    lemma_open_proc_ok(s, proc);
    lemma_ops_built(defs, active, start, proc.ops, 0);
    lemma_ops_new(defs, active, start, proc.ops, 0);
    lemma_proc_avoids(defs, active, s, proc);
    crate::ir::lemma_find_function(s.module, proc.name, 0);
    assert(t.module == body.module.push(body.finished(proc.outputs)));
    assert forall|f: int| s.module.len() <= f < t.module.len() implies #[trigger] no_earlier(
        t.module,
        f,
    ) by {
        if f < last {
            assert(no_earlier(body.module, f));
            assert(t.module[f] == body.module[f]);
            assert forall|j: int| 0 <= j < f implies (#[trigger] t.module[j]).name
                != t.module[f].name by {
                assert(t.module[j] == body.module[j]);
            }
        } else {
            assert forall|j: int| 0 <= j < f implies (#[trigger] t.module[j]).name
                != t.module[f].name by {
                if j < s.module.len() {
                    assert(t.module[j] == s.module[j]);
                } else {
                    assert(!active.contains(t.module[j].name));
                }
            }
        }
    }
}

/// Compiling the procedures adds only functions of names that the module
/// did not hold: no name is given to two functions.
pub proof fn lemma_all_new(defs: Seq<DefView>, active: Seq<Seq<char>>, s: GenState, from: int)
    requires
        names_apart(defs),
        state_ok(s),
        0 <= from,
        gen_all(defs, active, s, from) is Ok,
    ensures
        names_new(gen_all(defs, active, s, from)->Ok_0.module, s.module.len() as int),
    decreases defs.len() - from,
{
    if from >= defs.len() {
    } else {
        let next = crate::faithful::all_step(defs, active, s, from);
        crate::faithful::lemma_all_step(defs, active, s, from);
        crate::faithful::lemma_all_built(defs, active, next, from + 1);
        match defs[from] {
            DefView::Proc(p) => {
                if find_function(s.module, p.name, 0) is None {
                    assert(active.push(p.name)[active.len() as int] == p.name);
                    lemma_proc_new(defs, active.push(p.name), s, p);
                }
            },
            DefView::Const(_) => {},
        }
        lemma_all_new(defs, active, next, from + 1);
        lemma_names_new_trans(
            s.module,
            next.module,
            gen_all(defs, active, next, from + 1)->Ok_0.module,
        );
    }
}

/// A program that a new generator compiles is compiled correctly: the
/// module holds `print` and one function for each procedure, under the
/// procedure's name, and none under the name of a constant, with no name
/// given to two functions; every function of the module, called with as
/// many arguments as it has parameters, returns or faults; and every
/// function but `print` returns and prints what the first procedure of its
/// name means, and faults where that does.
///
/// This holds where no procedure has the name of a constant, and for
/// modules whose lengths fit in machine words, as all those do that the
/// generator builds.
pub proof fn compiled_program_is_correct(defs: Seq<DefView>)
    requires
        names_apart(defs),
        gen_all(defs, Seq::empty(), GenState::initial(), 0) is Ok,
        module_fits(gen_all(defs, Seq::empty(), GenState::initial(), 0)->Ok_0.module),
    ensures
        ({
            let module = gen_all(defs, Seq::empty(), GenState::initial(), 0)->Ok_0.module;
            &&& module.len() >= 1
            &&& module[0] == print_decl()
            &&& covered(defs, module, defs.len() as int)
            &&& names_new(module, 0)
            &&& consts_apart(defs, module, 1)
            &&& run_below(module, module.len() as int)
            &&& faithful_between(defs, module, 1, module.len() as int)
        }),
{
    let s = GenState::initial();
    let none = Seq::<Seq<char>>::empty();
    let module = gen_all(defs, none, s, 0)->Ok_0.module;
    lemma_initial_ok();
    crate::faithful::lemma_all_built(defs, none, s, 0);
    assert(s.module[0] == print_decl());
    assert(module[0] == s.module[0]);
    compiled_functions_are_faithful(defs, none, s);
    lemma_all_new(defs, none, s, 0);
    assert(names_new(module, 0)) by {
        assert(no_earlier(module, 0));
    }
    lemma_print_runs(module);
    assert(run_below(module, 1));
    compiled_functions_run(defs, none, s);
}

} // verus!
