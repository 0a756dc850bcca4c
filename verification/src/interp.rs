//! An interpreter for the target form: it computes what
//! [`call_function`](crate::semantics::call_function) says a function
//! returns and prints.

use vstd::prelude::*;
use crate::ir::{BinOp, Function, FunctionView, Inst, TargetModule, Terminator, Value};
use crate::validate::result_count;
use crate::semantics::{
    all_defined, binary_result, call_function, is_result, modulus, outcome_of, quotient, run_from,
    run_inst, signed, value_of, values_of, with_results, wrap, Machine, Outcome, Progress,
};

verus! {

/// Why running a function gave no result.
#[derive(Debug, Clone, Copy, PartialEq, Eq, Structural)]
pub enum RunError {
    /// A division by zero, or a signed division that overflows.
    Fault,
    /// The module is not well formed.
    Invalid,
}

/// The registers that a table of results stands for: row `inst` of table
/// `block` holds the results of that instruction.
pub open spec fn regs_view(table: Seq<Vec<Vec<u64>>>) -> Map<(int, int, int), u64> {
    Map::new(
        |key: (int, int, int)|
            0 <= key.0 < table.len() && 0 <= key.1 < table[key.0]@.len() && 0 <= key.2
                < table[key.0]@[key.1]@.len(),
        |key: (int, int, int)| table[key.0]@[key.1]@[key.2],
    )
}

/// The table has a row for each instruction of each block, and no row is
/// longer than its instruction has results.
pub open spec fn table_fits(module: Seq<FunctionView>, f: int, table: Seq<Vec<Vec<u64>>>) -> bool {
    &&& table.len() == module[f].blocks.len()
    &&& forall|b: int|
        0 <= b < table.len() ==> (#[trigger] table[b])@.len() == module[f].blocks[b].insts.len()
    &&& forall|b: int, i: int|
        0 <= b < table.len() && 0 <= i < table[b]@.len() ==> (#[trigger] table[b]@[i])@.len()
            <= result_count(module, module[f].blocks[b].insts[i])
}

/// Reduction to 64 bits leaves a number below the modulus alone, and takes
/// the modulus off one that is less than twice as large.
proof fn lemma_wrap(x: int)
    ensures
        0 <= x < modulus() ==> wrap(x) == x,
        modulus() <= x < 2 * modulus() ==> wrap(x) == x - modulus(),
        -modulus() <= x < 0 ==> wrap(x) == x + modulus(),
{
    if 0 <= x < modulus() {
        vstd::arithmetic::div_mod::lemma_small_mod(x as nat, modulus() as nat);
    } else if modulus() <= x < 2 * modulus() {
        vstd::arithmetic::div_mod::lemma_small_mod((x - modulus()) as nat, modulus() as nat);
        vstd::arithmetic::div_mod::lemma_mod_sub_multiples_vanish(x, modulus());
    } else if -modulus() <= x < 0 {
        vstd::arithmetic::div_mod::lemma_small_mod((x + modulus()) as nat, modulus() as nat);
        vstd::arithmetic::div_mod::lemma_mod_add_multiples_vanish(x, modulus());
    }
}

/// The size of a 64-bit integer read as a signed number.
fn magnitude(x: u64) -> (m: u64)
    ensures
        signed(x) >= 0 ==> m == signed(x),
        signed(x) < 0 ==> m == -signed(x),
        m <= 0x8000_0000_0000_0000,
{
    if x >= 0x8000_0000_0000_0000 {
        0u64.wrapping_sub(x)
    } else {
        x
    }
}

/// The 64-bit pattern of a number of that size, negated if asked.
fn with_sign(m: u64, negative: bool) -> (x: u64)
    requires
        m <= 0x8000_0000_0000_0000,
    ensures
        x == wrap(
            if negative {
                -(m as int)
            } else {
                m as int
            },
        ),
{
    proof {
        lemma_wrap(m as int);
        lemma_wrap(-(m as int));
    }
    if negative {
        0u64.wrapping_sub(m)
    } else {
        m
    }
}

/// The result of a two-operand instruction, or none where it faults.
pub fn binary(op: BinOp, x: u64, y: u64) -> (z: Option<u64>)
    ensures
        z == binary_result(op, x, y),
{
    proof {
        lemma_wrap(x + y);
        lemma_wrap(x - y);
    }
    match op {
        BinOp::Add => Some(x.wrapping_add(y)),
        BinOp::Sub => Some(x.wrapping_sub(y)),
        BinOp::Mul => Some(x.wrapping_mul(y)),
        BinOp::UDiv => if y == 0 {
            None
        } else {
            Some(x / y)
        },
        BinOp::URem => if y == 0 {
            None
        } else {
            Some(x % y)
        },
        BinOp::SDiv => {
            if y == 0 || (x == 0x8000_0000_0000_0000 && y == u64::MAX) {
                return None;
            }
            let negative = (x >= 0x8000_0000_0000_0000) != (y >= 0x8000_0000_0000_0000);
            let mx = magnitude(x);
            let my = magnitude(y);
            let q = mx / my;
            proof {
                vstd::arithmetic::div_mod::lemma_div_pos_is_pos(mx as int, my as int);
                vstd::arithmetic::div_mod::lemma_div_is_ordered_by_denominator(
                    mx as int,
                    1,
                    my as int,
                );
                vstd::arithmetic::div_mod::lemma_div_basics(mx as int);
            }
            Some(with_sign(q, negative))
        },
        BinOp::SRem => {
            if y == 0 || (x == 0x8000_0000_0000_0000 && y == u64::MAX) {
                return None;
            }
            let mx = magnitude(x);
            let my = magnitude(y);
            let r = mx % my;
            proof {
                let a = signed(x);
                let b = signed(y);
                vstd::arithmetic::div_mod::lemma_fundamental_div_mod(mx as int, my as int);
                vstd::arithmetic::div_mod::lemma_mod_bound(mx as int, my as int);
                let q = (mx as int) / (my as int);
                assert(mx == my * q + r);
                if a >= 0 {
                    if b > 0 {
                        assert(quotient(a, b) * b == my * q) by (nonlinear_arith)
                            requires
                                quotient(a, b) == q,
                                b == my,
                        ;
                    } else {
                        assert(quotient(a, b) * b == my * q) by (nonlinear_arith)
                            requires
                                quotient(a, b) == -q,
                                b == -my,
                        ;
                    }
                } else {
                    if b > 0 {
                        assert(quotient(a, b) * b == -(my * q)) by (nonlinear_arith)
                            requires
                                quotient(a, b) == -q,
                                b == my,
                        ;
                    } else {
                        assert(quotient(a, b) * b == -(my * q)) by (nonlinear_arith)
                            requires
                                quotient(a, b) == q,
                                b == -my,
                        ;
                    }
                }
            }
            Some(with_sign(r, x >= 0x8000_0000_0000_0000))
        },
        BinOp::Eq => Some(
            if x == y {
                1
            } else {
                0
            },
        ),
    }
}

/// The integer that an operand stands for.
fn operand(v: Value, args: &Vec<u64>, table: &Vec<Vec<Vec<u64>>>) -> (value: Option<u64>)
    ensures
        value == value_of(v, args@, regs_view(table@)),
{
    match v {
        Value::Const(n) => Some(n),
        Value::Param(i) => if i < args.len() {
            Some(args[i])
        } else {
            None
        },
        Value::Reg { block, inst, slot } => if block < table.len() && inst < table[block].len()
            && slot < table[block][inst].len() {
            Some(table[block][inst][slot])
        } else {
            None
        },
    }
}

/// The integers that the operands stand for, if each stands for one.
fn operands(values: &Vec<Value>, args: &Vec<u64>, table: &Vec<Vec<Vec<u64>>>) -> (found: Option<
    Vec<u64>,
>)
    ensures
        match found {
            Some(ints) => all_defined(values@, args@, regs_view(table@)) && ints@ == values_of(
                values@,
                args@,
                regs_view(table@),
            ),
            None => !all_defined(values@, args@, regs_view(table@)),
        },
{
    let mut ints: Vec<u64> = Vec::new();
    let mut i: usize = 0;
    while i < values.len()
        invariant
            i <= values@.len(),
            ints@.len() == i,
            forall|j: int|
                0 <= j < i ==> (#[trigger] value_of(values@[j], args@, regs_view(table@))) == Some(
                    ints@[j],
                ),
        decreases values@.len() - i,
    {
        match operand(values[i], args, table) {
            Some(x) => ints.push(x),
            None => {
                assert(value_of(values@[i as int], args@, regs_view(table@)) is None);
                return None;
            },
        }
        i += 1;
    }
    assert(ints@ =~= values_of(values@, args@, regs_view(table@)));
    Some(ints)
}

/// An empty row for each instruction of each block.
fn empty_table(func: &Function) -> (table: Vec<Vec<Vec<u64>>>)
    ensures
        table@.len() == func.blocks@.len(),
        forall|b: int| 0 <= b < table@.len() ==> (#[trigger] table@[b])@.len() == func.blocks@[b].insts@.len(),
        forall|b: int, i: int|
            0 <= b < table@.len() && 0 <= i < table@[b]@.len() ==> (#[trigger] table@[b]@[i])@.len()
                == 0,
        regs_view(table@) == Map::<(int, int, int), u64>::empty(),
{
    let mut table: Vec<Vec<Vec<u64>>> = Vec::new();
    let mut b: usize = 0;
    while b < func.blocks.len()
        invariant
            b <= func.blocks@.len(),
            table@.len() == b,
            forall|k: int| 0 <= k < b ==> (#[trigger] table@[k])@.len() == func.blocks@[k].insts@.len(),
            forall|k: int, i: int|
                0 <= k < b && 0 <= i < table@[k]@.len() ==> (#[trigger] table@[k]@[i])@.len() == 0,
        decreases func.blocks@.len() - b,
    {
        let mut rows: Vec<Vec<u64>> = Vec::new();
        let mut i: usize = 0;
        while i < func.blocks[b].insts.len()
            invariant
                b < func.blocks@.len(),
                i <= func.blocks@[b as int].insts@.len(),
                rows@.len() == i,
                forall|j: int| 0 <= j < i ==> (#[trigger] rows@[j])@.len() == 0,
            decreases func.blocks@[b as int].insts@.len() - i,
        {
            rows.push(Vec::new());
            i += 1;
        }
        table.push(rows);
        b += 1;
    }
    assert(regs_view(table@) =~= Map::<(int, int, int), u64>::empty());
    table
}

impl TargetModule {
    /// Runs function `f` on the arguments. What it prints is appended to
    /// `output`, and what it returns is handed back.
    pub fn run(&self, f: usize, args: &Vec<u64>, output: &mut Vec<u64>) -> (result: Result<
        Vec<u64>,
        RunError,
    >)
        ensures
            match call_function(self@, f as int, args@, old(output)@) {
                Outcome::Returned { values, output: printed } => result matches Ok(v) && v@ == values
                    && final(output)@ == printed && f < self@.len() && values.len()
                    == self@[f as int].results.len(),
                Outcome::Fault => result == Err::<Vec<u64>, RunError>(RunError::Fault),
                Outcome::Invalid => result == Err::<Vec<u64>, RunError>(RunError::Invalid),
            },
        decreases f,
    {
        if f >= self.functions.len() {
            return Err(RunError::Invalid);
        }
        let func = &self.functions[f];
        if args.len() != func.params.len() {
            return Err(RunError::Invalid);
        }
        let ghost module = self@;
        let ghost fi = f as int;
        assert(module[fi] == func@);
        if func.blocks.len() == 0 {
            if func.params.len() == 1 && func.results.len() == 0 {
                output.push(args[0]);
                return Ok(Vec::new());
            } else {
                return Err(RunError::Invalid);
            }
        }
        let mut table = empty_table(func);
        let mut block: usize = 0;
        loop
            invariant
                module == self@,
                fi == f,
                f < self.functions@.len(),
                func == self.functions@[fi],
                module[fi] == func@,
                args@.len() == func.params@.len(),
                table_fits(module, fi, table@),
                call_function(module, fi, args@, old(output)@) == outcome_of(
                    run_from(
                        module,
                        module[fi],
                        fi,
                        block as int,
                        0,
                        args@,
                        Machine { regs: regs_view(table@), output: output@ },
                    ),
                ),
            decreases func.blocks@.len() - block,
        {
            if block >= func.blocks.len() {
                return Err(RunError::Invalid);
            }
            let current = &func.blocks[block];
            let ghost bi = block as int;
            let ghost entry = Machine { regs: regs_view(table@), output: output@ };
            assert(module[fi].blocks[bi] == current@);
            let mut i: usize = 0;
            while i < current.insts.len()
                invariant
                    module == self@,
                    fi == f,
                    bi == block,
                    f < self.functions@.len(),
                    func == self.functions@[fi],
                    module[fi] == func@,
                    block < func.blocks@.len(),
                    current == func.blocks@[bi],
                    module[fi].blocks[bi] == current@,
                    i <= current.insts@.len(),
                    table_fits(module, fi, table@),
                    call_function(module, fi, args@, old(output)@) == outcome_of(
                        run_from(module, module[fi], fi, bi, 0, args@, entry),
                    ),
                    run_from(module, module[fi], fi, bi, 0, args@, entry) == run_from(
                        module,
                        module[fi],
                        fi,
                        bi,
                        i as int,
                        args@,
                        Machine { regs: regs_view(table@), output: output@ },
                    ),
                decreases current.insts@.len() - i,
            {
                let ghost before = Machine { regs: regs_view(table@), output: output@ };
                let ghost ii = i as int;
                assert(module[fi].blocks[bi].insts[ii] == current.insts@[ii]@);
                let results: Vec<u64> = match &current.insts[i] {
                    Inst::Binary { op, lhs, rhs } => {
                        let x = match operand(*lhs, args, &table) {
                            Some(x) => x,
                            None => {
                                return Err(RunError::Invalid);
                            },
                        };
                        let y = match operand(*rhs, args, &table) {
                            Some(y) => y,
                            None => {
                                return Err(RunError::Invalid);
                            },
                        };
                        match binary(*op, x, y) {
                            Some(z) => {
                                let mut results: Vec<u64> = Vec::new();
                                results.push(z);
                                assert(results@ =~= seq![z]);
                                results
                            },
                            None => {
                                return Err(RunError::Fault);
                            },
                        }
                    },
                    Inst::Call { callee, args: call_args } => {
                        if *callee >= f {
                            return Err(RunError::Invalid);
                        }
                        let ints = match operands(call_args, args, &table) {
                            Some(ints) => ints,
                            None => {
                                return Err(RunError::Invalid);
                            },
                        };
                        match self.run(*callee, &ints, output) {
                            Ok(values) => values,
                            Err(e) => {
                                return Err(e);
                            },
                        }
                    },
                };
                let ghost after = Machine {
                    regs: with_results(before.regs, bi, ii, results@),
                    output: output@,
                };
                assert(run_inst(module, fi, module[fi].blocks[bi].insts[ii], bi, ii, args@, before)
                    == Progress::Next(after));
                assert(results@.len() == result_count(module, module[fi].blocks[bi].insts[ii]));
                let ghost old_table = table@;
                table[block][i] = results;
                proof {
                    assert(regs_view(table@) =~= after.regs) by {
                        assert forall|key: (int, int, int)|
                            regs_view(table@).contains_key(key) implies #[trigger]
                            after.regs.contains_key(key) by {
                            if !is_result(key, bi, ii, results@.len()) {
                                assert(regs_view(old_table).contains_key(key));
                            }
                        }
                        assert forall|key: (int, int, int)|
                            after.regs.contains_key(key) implies #[trigger] regs_view(
                            table@,
                        ).contains_key(key) by {
                            if !is_result(key, bi, ii, results@.len()) {
                                assert(regs_view(old_table).contains_key(key));
                            }
                        }
                    }
                    assert(table_fits(module, fi, table@));
                }
                i += 1;
            }
            match &current.term {
                Terminator::Open => {
                    return Err(RunError::Invalid);
                },
                Terminator::Return(values) => {
                    if values.len() != func.results.len() {
                        return Err(RunError::Invalid);
                    }
                    return match operands(values, args, &table) {
                        Some(ints) => Ok(ints),
                        None => Err(RunError::Invalid),
                    };
                },
                Terminator::Jump(target) => {
                    if *target <= block || *target >= func.blocks.len() {
                        return Err(RunError::Invalid);
                    }
                    block = *target;
                },
                Terminator::Branch { cond, then_block, else_block } => {
                    match operand(*cond, args, &table) {
                        Some(c) => {
                            let target = if c != 0 {
                                *then_block
                            } else {
                                *else_block
                            };
                            if target <= block || target >= func.blocks.len() {
                                return Err(RunError::Invalid);
                            }
                            block = target;
                        },
                        None => {
                            return Err(RunError::Invalid);
                        },
                    }
                },
            }
        }
    }
}

} // verus!
