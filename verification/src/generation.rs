//! What the code generator does, as a mathematical function from the state
//! before an operation to the state after it, or to the failure it reports.
//!
//! The generator keeps a simulated operand stack of target values. An
//! operation pops its operands from that stack, appends instructions to the
//! block that is being filled, and pushes its results.

use vstd::prelude::*;
use crate::ast::{DefView, OpView, ProcView, Type};
use crate::ir::{find_function, print_decl, print_name, BinOp, BlockView, FunctionView, InstView, TermView, Value};

verus! {

/// Why generation failed.
pub enum ErrorKindView {
    /// An operation needed more operands than the stack held.
    StackUnderflow,
    /// A word names no function, constant or procedure.
    UnresolvedReference(Seq<char>),
    /// The values left by a procedure's body do not match its declared outputs.
    MalformedReturn,
    /// A definition refers to itself, directly or through others.
    RecursiveDefinition(Seq<char>),
    /// The body of a conditional did not hand back the stack that it was given.
    UnbalancedBranch,
}

/// A failure, with the definition whose body was being compiled and the
/// index of the offending operation in the sequence that holds it.
pub struct CompileErrorView {
    pub kind: ErrorKindView,
    pub definition: Seq<char>,
    pub index: int,
}

/// The state of the generator between two operations.
pub struct GenState {
    /// The functions finished so far.
    pub module: Seq<FunctionView>,
    /// The function that is being built.
    pub func: FunctionView,
    /// The block of `func` that receives instructions.
    pub cur: int,
    /// The simulated operand stack, top last.
    pub stack: Seq<Value>,
}

/// The index of the first constant of that name.
pub open spec fn find_const(defs: Seq<DefView>, name: Seq<char>, from: int) -> Option<int>
    decreases defs.len() - from,
{
    if from < 0 || from >= defs.len() {
        None
    } else if defs[from] is Const && defs[from].name() == name {
        Some(from)
    } else {
        find_const(defs, name, from + 1)
    }
}

/// The index of the first procedure of that name.
pub open spec fn find_proc(defs: Seq<DefView>, name: Seq<char>, from: int) -> Option<int>
    decreases defs.len() - from,
{
    if from < 0 || from >= defs.len() {
        None
    } else if defs[from] is Proc && defs[from].name() == name {
        Some(from)
    } else {
        find_proc(defs, name, from + 1)
    }
}

/// How many definitions are not being compiled at the moment. Entering a
/// definition lowers this number, which bounds the depth of nesting.
pub open spec fn remaining(defs: Seq<DefView>, active: Seq<Seq<char>>) -> nat
    decreases defs.len(),
{
    if defs.len() == 0 {
        0
    } else {
        remaining(defs.drop_last(), active) + if active.contains(defs.last().name()) {
            0nat
        } else {
            1nat
        }
    }
}

/// Entering a definition never raises the number of those that remain.
pub proof fn lemma_remaining_push(defs: Seq<DefView>, active: Seq<Seq<char>>, name: Seq<char>)
    ensures
        remaining(defs, active.push(name)) <= remaining(defs, active),
    decreases defs.len(),
{
    if defs.len() > 0 {
        lemma_remaining_push(defs.drop_last(), active, name);
        if active.contains(defs.last().name()) {
            let k = choose|k: int| 0 <= k < active.len() && active[k] == defs.last().name();
            assert(active.push(name)[k] == defs.last().name());
        }
    }
}

/// Entering a definition that was not being compiled lowers the number of
/// those that remain.
pub proof fn lemma_remaining_enter(
    defs: Seq<DefView>,
    active: Seq<Seq<char>>,
    name: Seq<char>,
    k: int,
)
    requires
        0 <= k < defs.len(),
        defs[k].name() == name,
        !active.contains(name),
    ensures
        remaining(defs, active.push(name)) < remaining(defs, active),
    decreases defs.len(),
{
    let pushed = active.push(name);
    assert(pushed[active.len() as int] == name);
    if k == defs.len() - 1 {
        lemma_remaining_push(defs.drop_last(), active, name);
    } else {
        lemma_remaining_enter(defs.drop_last(), active, name, k);
        if active.contains(defs.last().name()) {
            let j = choose|j: int| 0 <= j < active.len() && active[j] == defs.last().name();
            assert(pushed[j] == defs.last().name());
        }
    }
}

/// A search that succeeds finds a constant of the name that was asked for.
pub proof fn lemma_find_const(defs: Seq<DefView>, name: Seq<char>, from: int)
    ensures
        match find_const(defs, name, from) {
            Some(k) => from <= k < defs.len() && defs[k] is Const && defs[k].name() == name,
            None => forall|j: int|
                0 <= from <= j < defs.len() ==> !(defs[j] is Const && #[trigger] defs[j].name() == name),
        },
    decreases defs.len() - from,
{
    if 0 <= from < defs.len() && !(defs[from] is Const && defs[from].name() == name) {
        lemma_find_const(defs, name, from + 1);
    }
}

/// A search that succeeds finds a procedure of the name that was asked for.
pub proof fn lemma_find_proc(defs: Seq<DefView>, name: Seq<char>, from: int)
    ensures
        match find_proc(defs, name, from) {
            Some(k) => from <= k < defs.len() && defs[k] is Proc && defs[k].name() == name,
            None => forall|j: int|
                0 <= from <= j < defs.len() ==> !(defs[j] is Proc && #[trigger] defs[j].name() == name),
        },
    decreases defs.len() - from,
{
    if 0 <= from < defs.len() && !(defs[from] is Proc && defs[from].name() == name) {
        lemma_find_proc(defs, name, from + 1);
    }
}

/// The definition whose body is being compiled: the innermost one that
/// was entered, or the empty name outside every definition.
pub open spec fn current_definition(active: Seq<Seq<char>>) -> Seq<char> {
    if active.len() > 0 {
        active.last()
    } else {
        Seq::empty()
    }
}

/// A failure at operation `index` of the current definition.
pub open spec fn fault(active: Seq<Seq<char>>, kind: ErrorKindView, index: int) -> CompileErrorView {
    CompileErrorView { kind, definition: current_definition(active), index }
}

impl FunctionView {
    /// The function with one more instruction at the end of block `b`.
    pub open spec fn with_inst(self, b: int, inst: InstView) -> FunctionView {
        FunctionView {
            blocks: self.blocks.update(
                b,
                BlockView { insts: self.blocks[b].insts.push(inst), term: self.blocks[b].term },
            ),
            ..self
        }
    }

    /// The function with block `b` ended by `term`.
    pub open spec fn with_term(self, b: int, term: TermView) -> FunctionView {
        FunctionView {
            blocks: self.blocks.update(b, BlockView { insts: self.blocks[b].insts, term }),
            ..self
        }
    }

    /// The function with one more block at the end.
    pub open spec fn with_block(self, block: BlockView) -> FunctionView {
        FunctionView { blocks: self.blocks.push(block), ..self }
    }

    /// A function of that name and those parameters, with an empty entry block.
    pub open spec fn begin(name: Seq<char>, params: Seq<Type>) -> FunctionView {
        FunctionView { name, params, results: Seq::empty(), blocks: seq![BlockView::empty()] }
    }
}

impl GenState {
    /// The state of a new generator: the module holds the declaration of
    /// `print`, and the function that is being built has no name, no
    /// parameters and one empty block.
    pub open spec fn initial() -> GenState {
        GenState {
            module: seq![print_decl()],
            func: FunctionView::begin(Seq::empty(), Seq::empty()),
            cur: 0,
            stack: Seq::empty(),
        }
    }

    /// The place of the next instruction of the current block.
    pub open spec fn next_inst(self) -> int {
        self.func.blocks[self.cur].insts.len() as int
    }

    /// Result number `slot` of the next instruction of the current block.
    pub open spec fn next_reg(self, slot: int) -> Value {
        Value::Reg { block: self.cur as usize, inst: self.next_inst() as usize, slot: slot as usize }
    }

    /// The state after appending `inst` to the current block.
    pub open spec fn emit(self, inst: InstView) -> GenState {
        GenState { func: self.func.with_inst(self.cur, inst), ..self }
    }

    /// The state with another stack.
    pub open spec fn with_stack(self, stack: Seq<Value>) -> GenState {
        GenState { stack, ..self }
    }

    /// A two-operand instruction: pops the right operand, then the left one,
    /// and pushes the result.
    pub open spec fn binary(self, op: BinOp) -> GenState
        recommends
            self.stack.len() >= 2,
    {
        let n = self.stack.len();
        let inst = InstView::Binary { op, lhs: self.stack[n - 2], rhs: self.stack[n - 1] };
        self.emit(inst).with_stack(self.stack.take(n - 2).push(self.next_reg(0)))
    }

    /// A division with remainder: pops the divisor, then the dividend, and
    /// pushes the quotient, then the remainder.
    pub open spec fn divide(self, quotient: BinOp, remainder: BinOp) -> GenState
        recommends
            self.stack.len() >= 2,
    {
        let n = self.stack.len();
        let x = self.stack[n - 2];
        let y = self.stack[n - 1];
        let first = self.emit(InstView::Binary { op: quotient, lhs: x, rhs: y });
        let second = first.emit(InstView::Binary { op: remainder, lhs: x, rhs: y });
        second.with_stack(self.stack.take(n - 2).push(self.next_reg(0)).push(first.next_reg(0)))
    }

    /// A call of function `callee` of the module: pops as many arguments as
    /// it has parameters, hands them over in the order in which they were
    /// pushed, and pushes its results in order.
    pub open spec fn call(self, callee: int) -> GenState
        recommends
            0 <= callee < self.module.len(),
            self.stack.len() >= self.module[callee].params.len(),
    {
        let n = self.stack.len();
        let arity = self.module[callee].params.len();
        let inst = InstView::Call {
            callee,
            args: self.stack.subrange(n - arity, n as int),
        };
        let results = Seq::new(self.module[callee].results.len(), |k: int| self.next_reg(k));
        self.emit(inst).with_stack(self.stack.take(n - arity) + results)
    }

    /// The start of a conditional whose condition is on top of the stack:
    /// the condition leaves the stack, and a new block, which becomes the
    /// current one, receives the body. The block that was current stays
    /// without an end until the conditional is closed.
    pub open spec fn open_branch(self) -> GenState
        recommends
            self.stack.len() >= 1,
    {
        GenState {
            module: self.module,
            func: self.func.with_block(BlockView::empty()),
            cur: self.func.blocks.len() as int,
            stack: self.stack.drop_last(),
        }
    }

    /// The end of a conditional that was opened in block `from` on the
    /// condition `cond`, with its body in block `then_block` and behind.
    /// Two new blocks follow: one that skips the body, and the
    /// continuation, which becomes the current block. Block `from`
    /// branches to the body or to the block that skips it; the end of the
    /// body and the block that skips it jump to the continuation.
    pub open spec fn close_branch(self, from: int, cond: Value, then_block: int) -> GenState {
        let else_block = self.func.blocks.len() as int;
        let cont_block = (self.func.blocks.len() + 1) as int;
        let func = self.func.with_term(self.cur, TermView::Jump(cont_block)).with_term(
            from,
            TermView::Branch { cond, then_block, else_block },
        ).with_block(BlockView { insts: Seq::empty(), term: TermView::Jump(cont_block) }).with_block(
            BlockView::empty(),
        );
        GenState { func, cur: cont_block, ..self }
    }

    /// The start of a procedure: a new function whose parameters are on the
    /// stack in order.
    pub open spec fn open_proc(self, proc: ProcView) -> GenState {
        GenState {
            module: self.module,
            func: FunctionView::begin(proc.name, proc.inputs),
            cur: 0,
            stack: Seq::new(proc.inputs.len(), |k: int| Value::Param(k as usize)),
        }
    }

    /// The result types of the function that is being built, given the
    /// outputs that its procedure declares: those, or, where none is
    /// declared, one integer for each value left on the stack.
    pub open spec fn result_types(self, outputs: Seq<Type>) -> Seq<Type> {
        if outputs.len() > 0 {
            outputs
        } else {
            Seq::new(self.stack.len(), |k: int| Type::Int)
        }
    }

    /// The function that is being built, finished: it returns the values on
    /// the stack.
    pub open spec fn finished(self, outputs: Seq<Type>) -> FunctionView {
        FunctionView {
            results: self.result_types(outputs),
            ..self.func.with_term(self.cur, TermView::Return(self.stack))
        }
    }
}

/// The measure by which generation terminates: it falls whenever a
/// definition is entered.
pub open spec fn level(defs: Seq<DefView>, active: Seq<Seq<char>>) -> nat {
    2 * remaining(defs, active) + 1
}

/// The state after compiling `ops` from index `from` on, or the first
/// failure.
pub open spec fn gen_ops(
    defs: Seq<DefView>,
    active: Seq<Seq<char>>,
    s: GenState,
    ops: Seq<OpView>,
    from: int,
) -> Result<GenState, CompileErrorView>
    decreases level(defs, active), ops, ops.len() - from,
{
    if from < 0 || from >= ops.len() {
        Ok(s)
    } else {
        match gen_op(defs, active, s, ops[from], from) {
            Ok(next) => gen_ops(defs, active, next, ops, from + 1),
            Err(e) => Err(e),
        }
    }
}

/// The state after compiling the operation at index `at` of its sequence,
/// or the failure.
pub open spec fn gen_op(
    defs: Seq<DefView>,
    active: Seq<Seq<char>>,
    s: GenState,
    op: OpView,
    at: int,
) -> Result<GenState, CompileErrorView>
    decreases level(defs, active), op, 0nat,
{
    let depth = s.stack.len();
    let underflow = Err(fault(active, ErrorKindView::StackUnderflow, at));
    match op {
        OpView::Integer(n) => Ok(s.with_stack(s.stack.push(Value::Const(n)))),
        OpView::Add => if depth < 2 {
            underflow
        } else {
            Ok(s.binary(BinOp::Add))
        },
        OpView::Sub => if depth < 2 {
            underflow
        } else {
            Ok(s.binary(BinOp::Sub))
        },
        OpView::Mul => if depth < 2 {
            underflow
        } else {
            Ok(s.binary(BinOp::Mul))
        },
        OpView::Equal => if depth < 2 {
            underflow
        } else {
            Ok(s.binary(BinOp::Eq))
        },
        OpView::DivMod => if depth < 2 {
            underflow
        } else {
            Ok(s.divide(BinOp::UDiv, BinOp::URem))
        },
        OpView::IDivMod => if depth < 2 {
            underflow
        } else {
            Ok(s.divide(BinOp::SDiv, BinOp::SRem))
        },
        OpView::Drop => if depth < 1 {
            underflow
        } else {
            Ok(s.with_stack(s.stack.drop_last()))
        },
        OpView::Dup => if depth < 1 {
            underflow
        } else {
            Ok(s.with_stack(s.stack.push(s.stack.last())))
        },
        OpView::Swap => if depth < 2 {
            underflow
        } else {
            Ok(
                s.with_stack(
                    s.stack.take(depth - 2).push(s.stack[depth - 1]).push(s.stack[depth - 2]),
                ),
            )
        },
        OpView::Print => match find_function(s.module, print_name(), 0) {
            Some(f) => gen_call(active, s, f, at),
            None => Err(fault(active, ErrorKindView::UnresolvedReference(print_name()), at)),
        },
        OpView::If(body) => if depth < 1 {
            underflow
        } else {
            let inner = s.open_branch();
            match gen_ops(defs, active, inner, body, 0) {
                Ok(after) => if after.stack == inner.stack {
                    Ok(after.close_branch(s.cur, s.stack.last(), inner.cur))
                } else {
                    Err(fault(active, ErrorKindView::UnbalancedBranch, at))
                },
                Err(e) => Err(e),
            }
        },
        OpView::Word(w) => match find_function(s.module, w, 0) {
            Some(f) => gen_call(active, s, f, at),
            None => match find_const(defs, w, 0) {
                Some(c) => if active.contains(w) {
                    Err(fault(active, ErrorKindView::RecursiveDefinition(w), at))
                } else {
                    proof {
                        lemma_find_const(defs, w, 0);
                        lemma_remaining_enter(defs, active, w, c);
                    }
                    gen_ops(defs, active.push(w), s, defs[c]->Const_0.ops, 0)
                },
                None => match find_proc(defs, w, 0) {
                    Some(p) => if active.contains(w) {
                        Err(fault(active, ErrorKindView::RecursiveDefinition(w), at))
                    } else {
                        proof {
                            lemma_find_proc(defs, w, 0);
                            lemma_remaining_enter(defs, active, w, p);
                        }
                        match gen_proc(defs, active.push(w), s, defs[p]->Proc_0) {
                            Ok(after) => match find_function(after.module, w, 0) {
                                Some(f) => gen_call(active, after, f, at),
                                None => Err(
                                    fault(active, ErrorKindView::UnresolvedReference(w), at),
                                ),
                            },
                            Err(e) => Err(e),
                        }
                    },
                    None => Err(fault(active, ErrorKindView::UnresolvedReference(w), at)),
                },
            },
        },
    }
}

/// A call of function `callee`, or a stack underflow where the stack holds
/// fewer values than the function has parameters.
pub open spec fn gen_call(active: Seq<Seq<char>>, s: GenState, callee: int, at: int) -> Result<
    GenState,
    CompileErrorView,
> {
    if s.stack.len() < s.module[callee].params.len() {
        Err(fault(active, ErrorKindView::StackUnderflow, at))
    } else {
        Ok(s.call(callee))
    }
}

/// The state after compiling a procedure whose name is the last of
/// `active`: the module holds one more function, built from the body with
/// the parameters on the stack, and the function that was being built, its
/// current block and the stack are as before.
pub open spec fn gen_proc(
    defs: Seq<DefView>,
    active: Seq<Seq<char>>,
    s: GenState,
    proc: ProcView,
) -> Result<GenState, CompileErrorView>
    decreases level(defs, active) + 1, proc.ops, 0nat,
{
    match gen_ops(defs, active, s.open_proc(proc), proc.ops, 0) {
        Ok(body) => if proc.outputs.len() > 0 && body.stack.len() != proc.outputs.len() {
            Err(
                CompileErrorView {
                    kind: ErrorKindView::MalformedReturn,
                    definition: proc.name,
                    index: proc.ops.len() as int,
                },
            )
        } else {
            Ok(
                GenState {
                    module: body.module.push(body.finished(proc.outputs)),
                    func: s.func,
                    cur: s.cur,
                    stack: s.stack,
                },
            )
        },
        Err(e) => Err(e),
    }
}

/// The state after a request to compile a procedure: nothing changes
/// where the module holds a function of its name already; a procedure that
/// is being compiled is refused; any other is compiled.
pub open spec fn gen_entry(
    defs: Seq<DefView>,
    active: Seq<Seq<char>>,
    s: GenState,
    proc: ProcView,
) -> Result<GenState, CompileErrorView> {
    if find_function(s.module, proc.name, 0) is Some {
        Ok(s)
    } else if active.contains(proc.name) {
        Err(fault(active, ErrorKindView::RecursiveDefinition(proc.name), 0))
    } else {
        gen_proc(defs, active.push(proc.name), s, proc)
    }
}

/// The state after compiling, in order, every procedure from index `from`
/// on, or the first failure. A procedure of whose name the module holds a
/// function already, because it was compiled on a reference or because an
/// earlier procedure has its name, is passed over.
pub open spec fn gen_all(
    defs: Seq<DefView>,
    active: Seq<Seq<char>>,
    s: GenState,
    from: int,
) -> Result<GenState, CompileErrorView>
    decreases defs.len() - from,
{
    if from < 0 || from >= defs.len() {
        Ok(s)
    } else {
        match defs[from] {
            DefView::Proc(p) => match gen_entry(defs, active, s, p) {
                Ok(next) => gen_all(defs, active, next, from + 1),
                Err(e) => Err(e),
            },
            DefView::Const(_) => gen_all(defs, active, s, from + 1),
        }
    }
}

} // verus!
