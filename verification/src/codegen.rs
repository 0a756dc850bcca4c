//! The code generator: it walks the definitions with a simulated operand
//! stack and fills a target module, one function for each procedure.
//!
//! A word is resolved at the place where it is used: to a function that the
//! module holds already, which is called; else to the first constant of
//! that name, whose operations are compiled in place; else to the first
//! procedure of that name, which is compiled first and then called. A
//! definition that refers to itself, directly or through others, is
//! refused.
//!
//! A procedure returns the values that its body leaves on the stack. Where
//! it declares outputs, there must be as many values as outputs.
//!
//! The body of a conditional must hand back the stack as it found it: the
//! same values in the same places. Code behind the conditional then sees
//! the same values whether the body ran or not.
//!
//! A request that fails changes nothing: the module, the function that is
//! being built and the stack are as before.

use vstd::prelude::*;
use crate::ast::{
    defs_view, lemma_ops_view, ops_view, Const, DefView, Definition, OpView, Operation, Proc, Type,
};
use crate::validate::well_formed;
use crate::ir::{
    find_function, BinOp, Block, BlockView, Function, FunctionView, Inst, TargetModule, Terminator,
    Value,
};
use crate::simulation::{
    built_on, lemma_built_trans, lemma_op_built, lemma_open_branch_built, lemma_open_proc_ok,
    lemma_ops_built, lemma_proc_built, state_ok,
};
use crate::wellformed::{
    all_fit, lemma_initial_ok, lemma_module_grown_ok, lemma_op_ok, lemma_open_branch_ok,
    lemma_open_proc_partial_ok, lemma_proc_ok, partial_ok,
};
use crate::generation::{
    fault, find_const, find_proc, gen_all, gen_call, gen_entry, gen_op, gen_ops, gen_proc, level,
    lemma_find_const, lemma_find_proc, lemma_remaining_enter, CompileErrorView,
    ErrorKindView, GenState,
};

verus! {

/// Why generation failed.
#[derive(Debug, PartialEq, Eq)]
pub enum ErrorKind {
    /// An operation needed more operands than the stack held.
    StackUnderflow,
    /// A word names no function, constant or procedure.
    UnresolvedReference(String),
    /// The values left by a procedure's body do not match its declared outputs.
    MalformedReturn,
    /// A definition refers to itself, directly or through others.
    RecursiveDefinition(String),
    /// The body of a conditional did not hand back the stack that it was given.
    UnbalancedBranch,
}

/// A failure of generation, with the definition whose body was being
/// compiled and the index of the offending operation in the sequence that
/// holds it.
#[derive(Debug, PartialEq, Eq)]
pub struct CompileError {
    pub kind: ErrorKind,
    pub definition: String,
    pub index: usize,
}

impl View for ErrorKind {
    type V = ErrorKindView;

    open spec fn view(&self) -> ErrorKindView {
        match self {
            ErrorKind::StackUnderflow => ErrorKindView::StackUnderflow,
            ErrorKind::UnresolvedReference(w) => ErrorKindView::UnresolvedReference(w@),
            ErrorKind::MalformedReturn => ErrorKindView::MalformedReturn,
            ErrorKind::RecursiveDefinition(w) => ErrorKindView::RecursiveDefinition(w@),
            ErrorKind::UnbalancedBranch => ErrorKindView::UnbalancedBranch,
        }
    }
}

impl View for CompileError {
    type V = CompileErrorView;

    open spec fn view(&self) -> CompileErrorView {
        CompileErrorView { kind: self.kind@, definition: self.definition@, index: self.index as int }
    }
}

/// The views of a sequence of names.
pub open spec fn names_view(names: Seq<String>) -> Seq<Seq<char>> {
    Seq::new(names.len(), |i: int| names[i]@)
}

/// The generator and its state: the module built so far, the function that
/// is being built, and the simulated operand stack.
pub struct Compiler<'a> {
    module: TargetModule,
    defs: &'a Vec<Definition>,
    stack: Vec<Value>,
    func: Function,
    cur: usize,
    active: Vec<String>,
}

/// Whether a name is among those given.
fn contains_name(names: &Vec<String>, name: &String) -> (found: bool)
    ensures
        found == names_view(names@).contains(name@),
{
    let mut i: usize = 0;
    while i < names.len()
        invariant
            i <= names@.len(),
            forall|j: int| 0 <= j < i ==> names_view(names@)[j] != name@,
        decreases names@.len() - i,
    {
        if names[i] == *name {
            assert(names_view(names@)[i as int] == name@);
            return true;
        }
        i += 1;
    }
    false
}

/// The first constant of that name.
fn lookup_const<'d>(defs: &'d Vec<Definition>, name: &String) -> (found: Option<&'d Const>)
    ensures
        match find_const(defs_view(defs@), name@, 0) {
            Some(k) => found matches Some(c) && defs_view(defs@)[k] == DefView::Const(c@),
            None => found is None,
        },
{
    let mut i: usize = 0;
    while i < defs.len()
        invariant
            i <= defs@.len(),
            find_const(defs_view(defs@), name@, 0) == find_const(defs_view(defs@), name@, i as int),
        decreases defs@.len() - i,
    {
        if let Definition::Const(c) = &defs[i] {
            if c.name == *name {
                return Some(c);
            }
        }
        i += 1;
    }
    None
}

/// The first procedure of that name.
fn lookup_proc<'d>(defs: &'d Vec<Definition>, name: &String) -> (found: Option<&'d Proc>)
    ensures
        match find_proc(defs_view(defs@), name@, 0) {
            Some(k) => found matches Some(p) && defs_view(defs@)[k] == DefView::Proc(p@),
            None => found is None,
        },
{
    let mut i: usize = 0;
    while i < defs.len()
        invariant
            i <= defs@.len(),
            find_proc(defs_view(defs@), name@, 0) == find_proc(defs_view(defs@), name@, i as int),
        decreases defs@.len() - i,
    {
        if let Definition::Proc(p) = &defs[i] {
            if p.name == *name {
                return Some(p);
            }
        }
        i += 1;
    }
    None
}

/// A copy of a list of types.
fn copy_types(types: &Vec<Type>) -> (copy: Vec<Type>)
    ensures
        copy@ == types@,
{
    let mut copy: Vec<Type> = Vec::new();
    let mut i: usize = 0;
    while i < types.len()
        invariant
            i <= types@.len(),
            copy@ == types@.take(i as int),
        decreases types@.len() - i,
    {
        copy.push(types[i]);
        assert(types@.take(i + 1) =~= types@.take(i as int).push(types@[i as int]));
        i += 1;
    }
    assert(types@.take(types@.len() as int) =~= types@);
    copy
}

/// A copy of a list of values.
fn copy_values(values: &Vec<Value>) -> (copy: Vec<Value>)
    ensures
        copy@ == values@,
{
    let mut copy: Vec<Value> = Vec::new();
    let mut i: usize = 0;
    while i < values.len()
        invariant
            i <= values@.len(),
            copy@ == values@.take(i as int),
        decreases values@.len() - i,
    {
        copy.push(values[i]);
        assert(values@.take(i + 1) =~= values@.take(i as int).push(values@[i as int]));
        i += 1;
    }
    assert(values@.take(values@.len() as int) =~= values@);
    copy
}

/// Whether two lists hold the same values in the same order.
fn same_values(a: &Vec<Value>, b: &Vec<Value>) -> (same: bool)
    ensures
        same == (a@ == b@),
{
    if a.len() != b.len() {
        return false;
    }
    let mut i: usize = 0;
    while i < a.len()
        invariant
            i <= a@.len(),
            a@.len() == b@.len(),
            forall|j: int| 0 <= j < i ==> a@[j] == b@[j],
        decreases a@.len() - i,
    {
        if a[i] != b[i] {
            return false;
        }
        i += 1;
    }
    assert(a@ =~= b@);
    true
}

/// Pushes the results of an instruction, in order.
fn push_results(stack: &mut Vec<Value>, block: usize, inst: usize, count: usize)
    ensures
        final(stack)@ == old(stack)@ + Seq::new(
            count as nat,
            |k: int| Value::Reg { block, inst, slot: k as usize },
        ),
{
    let mut k: usize = 0;
    while k < count
        invariant
            k <= count,
            stack@ == old(stack)@ + Seq::new(
                k as nat,
                |j: int| Value::Reg { block, inst, slot: j as usize },
            ),
        decreases count - k,
    {
        stack.push(Value::Reg { block, inst, slot: k });
        k += 1;
        assert(stack@ =~= old(stack)@ + Seq::new(
            k as nat,
            |j: int| Value::Reg { block, inst, slot: j as usize },
        ));
    }
}

/// The parameters of a function, as values, in order.
fn param_values(count: usize) -> (values: Vec<Value>)
    ensures
        values@ == Seq::new(count as nat, |k: int| Value::Param(k as usize)),
{
    let mut values: Vec<Value> = Vec::new();
    let mut k: usize = 0;
    while k < count
        invariant
            k <= count,
            values@ == Seq::new(k as nat, |j: int| Value::Param(j as usize)),
        decreases count - k,
    {
        values.push(Value::Param(k));
        k += 1;
        assert(values@ =~= Seq::new(k as nat, |j: int| Value::Param(j as usize)));
    }
    values
}

/// As many integer types as asked for.
fn int_types(count: usize) -> (types: Vec<Type>)
    ensures
        types@ == Seq::new(count as nat, |k: int| Type::Int),
{
    let mut types: Vec<Type> = Vec::new();
    let mut k: usize = 0;
    while k < count
        invariant
            k <= count,
            types@ == Seq::new(k as nat, |j: int| Type::Int),
        decreases count - k,
    {
        types.push(Type::Int);
        k += 1;
        assert(types@ =~= Seq::new(k as nat, |j: int| Type::Int));
    }
    types
}

impl<'a> Compiler<'a> {
    /// The state of the generator.
    pub closed spec fn state(&self) -> GenState {
        GenState { module: self.module@, func: self.func@, cur: self.cur as int, stack: self.stack@ }
    }

    /// The definitions that words are resolved against.
    pub closed spec fn defs(&self) -> Seq<DefView> {
        defs_view(self.defs@)
    }

    /// The definitions that are being compiled, outermost first.
    pub closed spec fn active(&self) -> Seq<Seq<char>> {
        names_view(self.active@)
    }

    /// The current block is a block of the function that is being built.
    closed spec fn ready(&self) -> bool {
        self.cur < self.func.blocks@.len()
    }

    /// The generator is in order: the module is well formed; the current
    /// block is a block of the function that is being built and has no end
    /// yet; every instruction of that function is well formed, and every
    /// block that has an end; and the values on the stack are defined.
    pub closed spec fn wf(&self) -> bool {
        state_ok(self.state()) && partial_ok(self.state())
    }

    /// What it is for a generator to be in order, in the terms in which
    /// what holds of every generator is stated: its state is in order, and
    /// so is the function that is being built, as far as it is built.
    pub proof fn in_order(&self)
        requires
            self.wf(),
        ensures
            state_ok(self.state()),
            partial_ok(self.state()),
    {
    }

    /// In a generator that is in order the current block is a block of the
    /// function that is being built.
    proof fn lemma_ready(&self)
        requires
            self.wf(),
        ensures
            self.ready(),
    {
        assert(self.state().func.blocks.len() == self.func.blocks@.len());
    }

    /// The lengths of the state fit in machine words.
    proof fn lemma_fits(&self)
        ensures
            all_fit(self.state()),
    {
        let s = self.state();
        assert(s.func.blocks.len() == self.func.blocks.len());
        assert(s.func.params.len() == self.func.params.len());
        assert forall|b: int| 0 <= b < s.func.blocks.len() implies (#[trigger] s.func.blocks[b]).insts.len()
            <= usize::MAX by {
            assert(s.func.blocks[b] == self.func.blocks@[b]@);
            assert(s.func.blocks[b].insts.len() == self.func.blocks@[b].insts.len());
        }
        assert forall|f: int| 0 <= f < s.module.len() implies {
            &&& (#[trigger] s.module[f]).params.len() <= usize::MAX
            &&& s.module[f].results.len() <= usize::MAX
            &&& s.module[f].blocks.len() <= usize::MAX
            &&& forall|b: int|
                0 <= b < s.module[f].blocks.len() ==> (#[trigger] s.module[f].blocks[b]).insts.len()
                    <= usize::MAX
        } by {
            let func = self.module.functions@[f];
            assert(s.module[f] == func@);
            assert(func@.params.len() == func.params.len());
            assert(func@.results.len() == func.results.len());
            assert(func@.blocks.len() == func.blocks.len());
            assert forall|b: int| 0 <= b < func@.blocks.len() implies (#[trigger] func@.blocks[b]).insts.len()
                <= usize::MAX by {
                assert(func@.blocks[b] == func.blocks@[b]@);
                assert(func@.blocks[b].insts.len() == func.blocks@[b].insts.len());
            }
        }
    }

    /// A generator over those definitions. Its module holds the declaration
    /// of `print`; the function that is being built has no name, no
    /// parameters and one empty block.
    pub fn new(defs: &'a Vec<Definition>) -> (compiler: Compiler<'a>)
        ensures
            compiler.wf(),
            compiler.defs() == defs_view(defs@),
            compiler.active() == Seq::<Seq<char>>::empty(),
            compiler.state() == GenState::initial(),
    {
        let mut blocks: Vec<Block> = Vec::new();
        blocks.push(Block::empty());
        let func = Function { name: String::new(), params: Vec::new(), results: Vec::new(), blocks };
        assert(func@.blocks =~= seq![BlockView::empty()]);
        assert(func@ =~= FunctionView::begin(Seq::empty(), Seq::empty()));
        let compiler = Compiler {
            module: TargetModule::new(),
            defs,
            stack: Vec::new(),
            func,
            cur: 0,
            active: Vec::new(),
        };
        assert(compiler.state() =~~= GenState::initial());
        assert(compiler.active() =~= Seq::<Seq<char>>::empty());
        proof {
            lemma_initial_ok();
        }
        compiler
    }

    /// The module built so far.
    pub fn module(&self) -> (module: &TargetModule)
        ensures
            module@ == self.state().module,
            self.wf() ==> well_formed(module@),
    {
        &self.module
    }

    /// The module built so far, by value.
    pub fn into_module(self) -> (module: TargetModule)
        ensures
            module@ == self.state().module,
            self.wf() ==> well_formed(module@),
    {
        self.module
    }

    /// The function that is being built.
    pub fn function(&self) -> (func: &Function)
        ensures
            func@ == self.state().func,
    {
        &self.func
    }

    /// The simulated operand stack, top last.
    pub fn stack(&self) -> (stack: &Vec<Value>)
        ensures
            stack@ == self.state().stack,
    {
        &self.stack
    }

    /// The block that receives instructions.
    pub fn current_block(&self) -> (block: usize)
        ensures
            block == self.state().cur,
    {
        self.cur
    }
    /// Appends an instruction to the current block.
    fn emit(&mut self, inst: Inst)
        requires
            old(self).ready(),
        ensures
            final(self).ready(),
            final(self).state() == old(self).state().emit(inst@),
            final(self).defs() == old(self).defs(),
            final(self).active() == old(self).active(),
    {
        let ghost view = inst@;
        self.func.blocks[self.cur].insts.push(inst);
        proof {
            let b = self.cur as int;
            let before = old(self).func.blocks@[b];
            let after = self.func.blocks@[b];
            assert(after.insts@ == before.insts@.push(inst));
            assert(after.term == before.term);
            assert(after@.insts =~= before@.insts.push(view));
            assert(self.func@.blocks =~= old(self).func@.with_inst(b, view).blocks);
        }
    }

    /// Ends a block of the function that is being built.
    fn terminate(&mut self, block: usize, term: Terminator)
        requires
            old(self).ready(),
            block < old(self).state().func.blocks.len(),
        ensures
            final(self).ready(),
            final(self).state() == (GenState {
                func: old(self).state().func.with_term(block as int, term@),
                ..old(self).state()
            }),
            final(self).defs() == old(self).defs(),
            final(self).active() == old(self).active(),
    {
        let ghost view = term@;
        self.func.blocks[block].term = term;
        proof {
            let b = block as int;
            let before = old(self).func.blocks@[b];
            let after = self.func.blocks@[b];
            assert(after.insts@ == before.insts@);
            assert(after@.insts =~= before@.insts);
            assert(self.func@.blocks =~= old(self).func@.with_term(b, view).blocks);
        }
    }

    /// A two-operand instruction on the top two values.
    fn binary(&mut self, op: BinOp)
        requires
            old(self).ready(),
            old(self).state().stack.len() >= 2,
        ensures
            final(self).ready(),
            final(self).state() == old(self).state().binary(op),
            final(self).defs() == old(self).defs(),
            final(self).active() == old(self).active(),
    {
        let n = self.stack.len();
        let lhs = self.stack[n - 2];
        let rhs = self.stack[n - 1];
        let inst = self.func.blocks[self.cur].insts.len();
        self.emit(Inst::Binary { op, lhs, rhs });
        self.stack.truncate(n - 2);
        self.stack.push(Value::Reg { block: self.cur, inst, slot: 0 });
        assert(self.state() =~~= old(self).state().binary(op));
    }

    /// A division with remainder on the top two values.
    fn divide(&mut self, quotient: BinOp, remainder: BinOp)
        requires
            old(self).ready(),
            old(self).state().stack.len() >= 2,
        ensures
            final(self).ready(),
            final(self).state() == old(self).state().divide(quotient, remainder),
            final(self).defs() == old(self).defs(),
            final(self).active() == old(self).active(),
    {
        let n = self.stack.len();
        let lhs = self.stack[n - 2];
        let rhs = self.stack[n - 1];
        let first = self.func.blocks[self.cur].insts.len();
        self.emit(Inst::Binary { op: quotient, lhs, rhs });
        let second = self.func.blocks[self.cur].insts.len();
        self.emit(Inst::Binary { op: remainder, lhs, rhs });
        self.stack.truncate(n - 2);
        self.stack.push(Value::Reg { block: self.cur, inst: first, slot: 0 });
        self.stack.push(Value::Reg { block: self.cur, inst: second, slot: 0 });
        assert(self.state() =~~= old(self).state().divide(quotient, remainder));
    }

    /// A call of a function of the module on the top values.
    fn call(&mut self, callee: usize)
        requires
            old(self).ready(),
            callee < old(self).state().module.len(),
            old(self).state().stack.len() >= old(self).state().module[callee as int].params.len(),
        ensures
            final(self).ready(),
            final(self).state() == old(self).state().call(callee as int),
            final(self).defs() == old(self).defs(),
            final(self).active() == old(self).active(),
    {
        let arity = self.module.functions[callee].params.len();
        let count = self.module.functions[callee].results.len();
        let n = self.stack.len();
        let args = self.stack.split_off(n - arity);
        let inst = self.func.blocks[self.cur].insts.len();
        self.emit(Inst::Call { callee, args });
        push_results(&mut self.stack, self.cur, inst, count);
        proof {
            let before = old(self).state();
            assert(before.module[callee as int] == old(self).module.functions@[callee as int]@);
            assert(self.state().stack =~= before.call(callee as int).stack);
        }
    }

    /// A call of a function of the module, where the stack holds its
    /// arguments.
    fn call_function(&mut self, callee: usize, at: usize) -> (done: Result<(), CompileError>)
        requires
            old(self).ready(),
            callee < old(self).state().module.len(),
        ensures
            final(self).ready(),
            final(self).defs() == old(self).defs(),
            final(self).active() == old(self).active(),
            match gen_call(old(self).active(), old(self).state(), callee as int, at as int) {
                Ok(s) => done is Ok && final(self).state() == s,
                Err(e) => done matches Err(err) && err@ == e && final(self).state() == old(
                    self,
                ).state(),
            },
    {
        if self.stack.len() < self.module.functions[callee].params.len() {
            return Err(self.fault(ErrorKind::StackUnderflow, at));
        }
        self.call(callee);
        Ok(())
    }

    /// A failure at operation `index` of the current definition.
    fn fault(&self, kind: ErrorKind, index: usize) -> (e: CompileError)
        ensures
            e@ == fault(self.active(), kind@, index as int),
    {
        let n = self.active.len();
        let definition = if n > 0 {
            self.active[n - 1].clone()
        } else {
            String::new()
        };
        CompileError { kind, definition, index }
    }
    /// One more block at the end of the function that is being built.
    fn add_block(&mut self)
        requires
            old(self).ready(),
        ensures
            final(self).ready(),
            final(self).state() == (GenState {
                func: old(self).state().func.with_block(BlockView::empty()),
                ..old(self).state()
            }),
            final(self).defs() == old(self).defs(),
            final(self).active() == old(self).active(),
    {
        self.func.blocks.push(Block::empty());
        assert(self.func@.blocks =~= old(self).func@.with_block(BlockView::empty()).blocks);
    }

    /// Forgets the functions of the module from index `len` on.
    fn rollback(&mut self, len: usize)
        requires
            old(self).ready(),
            len <= old(self).state().module.len(),
        ensures
            final(self).ready(),
            final(self).state() == (GenState {
                module: old(self).state().module.take(len as int),
                ..old(self).state()
            }),
            final(self).defs() == old(self).defs(),
            final(self).active() == old(self).active(),
    {
        self.module.functions.truncate(len);
        assert(self.module@ =~= old(self).module@.take(len as int));
    }

    /// Enters a definition.
    fn enter(&mut self, name: &String)
        requires
            old(self).ready(),
        ensures
            final(self).ready(),
            final(self).state() == old(self).state(),
            final(self).defs() == old(self).defs(),
            final(self).active() == old(self).active().push(name@),
    {
        self.active.push(name.clone());
        assert(self.active() =~= old(self).active().push(name@));
    }

    /// Leaves the definition that was entered last.
    fn leave(&mut self)
        requires
            old(self).ready(),
            old(self).active().len() > 0,
        ensures
            final(self).ready(),
            final(self).state() == old(self).state(),
            final(self).defs() == old(self).defs(),
            final(self).active() == old(self).active().drop_last(),
    {
        self.active.pop();
        assert(self.active() =~= old(self).active().drop_last());
    }

    /// Puts the function that is being built, the current block and the
    /// stack back to an earlier state on which the present one is built.
    fn restore(
        &mut self,
        blocks: usize,
        cur: usize,
        insts: usize,
        stack: Vec<Value>,
        Ghost(to): Ghost<GenState>,
    )
        requires
            state_ok(to),
            built_on(to, old(self).state()),
            old(self).state().module == to.module,
            blocks == to.func.blocks.len(),
            cur == to.cur,
            insts == to.func.blocks[to.cur].insts.len(),
            stack@ == to.stack,
        ensures
            final(self).state() == to,
            final(self).defs() == old(self).defs(),
            final(self).active() == old(self).active(),
    {
        let ghost before = self.state();
        assert(before.func.blocks.len() == self.func.blocks@.len());
        self.func.blocks.truncate(blocks);
        assert(before.func.blocks[cur as int] == old(self).func.blocks@[cur as int]@);
        self.func.blocks[cur].insts.truncate(insts);
        self.func.blocks[cur].term = Terminator::Open;
        self.cur = cur;
        self.stack = stack;
        proof {
            assert forall|b: int| 0 <= b < blocks implies self.func@.blocks[b] == to.func.blocks[b] by {
                if b != cur {
                    assert(self.func.blocks@[b] == old(self).func.blocks@[b]);
                    assert(before.func.blocks[b] == old(self).func.blocks@[b]@);
                    assert(before.func.blocks[b] == to.func.blocks[b]);
                } else {
                    let kept = self.func.blocks@[b];
                    assert(kept.insts@ == old(self).func.blocks@[b].insts@.take(insts as int));
                    assert(to.func.blocks[b].insts.is_prefix_of(before.func.blocks[b].insts));
                    assert(kept@.insts =~= to.func.blocks[b].insts);
                }
            }
            assert(self.func@.blocks =~= to.func.blocks);
            assert(self.state() =~= to);
        }
    }

    /// Compiles one operation, the one at index `at` of its sequence.
    fn compile_op(&mut self, op: &Operation, at: usize) -> (done: Result<(), CompileError>)
        requires
            old(self).wf(),
        ensures
            final(self).wf(),
            final(self).defs() == old(self).defs(),
            final(self).active() == old(self).active(),
            match gen_op(old(self).defs(), old(self).active(), old(self).state(), op@, at as int) {
                Ok(s) => done is Ok && final(self).state() == s,
                Err(e) => done matches Err(err) && err@ == e && final(self).state() == old(
                    self,
                ).state(),
            },
        decreases level(old(self).defs(), old(self).active()), op@, 1nat,
    {
        proof {
            self.lemma_ready();
        }
        let depth = self.stack.len();
        let done = match op {
            Operation::Integer(n) => {
                self.stack.push(Value::Const(*n));
                Ok(())
            },
            Operation::Add => {
                if depth < 2 {
                    return Err(self.fault(ErrorKind::StackUnderflow, at));
                }
                self.binary(BinOp::Add);
                Ok(())
            },
            Operation::Sub => {
                if depth < 2 {
                    return Err(self.fault(ErrorKind::StackUnderflow, at));
                }
                self.binary(BinOp::Sub);
                Ok(())
            },
            Operation::Mul => {
                if depth < 2 {
                    return Err(self.fault(ErrorKind::StackUnderflow, at));
                }
                self.binary(BinOp::Mul);
                Ok(())
            },
            Operation::Equal => {
                if depth < 2 {
                    return Err(self.fault(ErrorKind::StackUnderflow, at));
                }
                self.binary(BinOp::Eq);
                Ok(())
            },
            Operation::DivMod => {
                if depth < 2 {
                    return Err(self.fault(ErrorKind::StackUnderflow, at));
                }
                self.divide(BinOp::UDiv, BinOp::URem);
                Ok(())
            },
            Operation::IDivMod => {
                if depth < 2 {
                    return Err(self.fault(ErrorKind::StackUnderflow, at));
                }
                self.divide(BinOp::SDiv, BinOp::SRem);
                Ok(())
            },
            Operation::Drop => {
                if depth < 1 {
                    return Err(self.fault(ErrorKind::StackUnderflow, at));
                }
                self.stack.truncate(depth - 1);
                Ok(())
            },
            Operation::Dup => {
                if depth < 1 {
                    return Err(self.fault(ErrorKind::StackUnderflow, at));
                }
                let top = self.stack[depth - 1];
                self.stack.push(top);
                Ok(())
            },
            Operation::Swap => {
                if depth < 2 {
                    return Err(self.fault(ErrorKind::StackUnderflow, at));
                }
                let below = self.stack[depth - 2];
                let top = self.stack[depth - 1];
                self.stack.truncate(depth - 2);
                self.stack.push(top);
                self.stack.push(below);
                Ok(())
            },
            Operation::Print => {
                let name = String::from_str("print");
                match self.module.get_function(&name) {
                    Some(f) => self.call_function(f, at),
                    None => Err(self.fault(ErrorKind::UnresolvedReference(name), at)),
                }
            },
            Operation::If(body) => {
                if depth < 1 {
                    return Err(self.fault(ErrorKind::StackUnderflow, at));
                }
                return self.compile_if(body, at);
            },
            Operation::Word(word) => {
                return self.compile_word(word, at);
            },
        };
        proof {
            if done is Ok {
                self.lemma_fits();
                lemma_op_built(old(self).defs(), old(self).active(), old(self).state(), op@, at as int);
                lemma_op_ok(old(self).defs(), old(self).active(), old(self).state(), op@, at as int);
            }
        }
        done
    }

    /// Compiles a conditional whose condition is on top of the stack.
    fn compile_if(&mut self, body: &Vec<Operation>, at: usize) -> (done: Result<(), CompileError>)
        requires
            old(self).wf(),
            old(self).state().stack.len() >= 1,
        ensures
            final(self).wf(),
            final(self).defs() == old(self).defs(),
            final(self).active() == old(self).active(),
            match gen_op(
                old(self).defs(),
                old(self).active(),
                old(self).state(),
                OpView::If(ops_view(body@)),
                at as int,
            ) {
                Ok(s) => done is Ok && final(self).state() == s,
                Err(e) => done matches Err(err) && err@ == e && final(self).state() == old(
                    self,
                ).state(),
            },
        decreases level(old(self).defs(), old(self).active()), OpView::If(ops_view(body@)), 0nat,
    {
        proof {
            self.lemma_ready();
        }
        let known = self.module.functions.len();
        let depth = self.stack.len();
        let cond = self.stack[depth - 1];
        let from = self.cur;
        let ghost start = old(self).state();
        let blocks = self.func.blocks.len();
        assert(blocks == start.func.blocks.len());
        self.stack.truncate(depth - 1);
        self.add_block();
        assert(self.state().func.blocks.len() == start.func.blocks.len() + 1);
        assert(self.func.blocks@.len() == self.state().func.blocks.len());
        let then_block = self.func.blocks.len() - 1;
        self.cur = then_block;
        let ghost inner = start.open_branch();
        proof {
            assert(self.state().stack =~= inner.stack);
            assert(self.state() =~= inner);
            lemma_open_branch_built(start);
            lemma_open_branch_ok(start);
        }
        let expected = copy_values(&self.stack);
        match self.compile_ops(body) {
            Ok(()) => {
                let ghost after = self.state();
                proof {
                    lemma_ops_built(old(self).defs(), old(self).active(), inner, ops_view(body@), 0);
                    assert(after.func.blocks.len() == self.func.blocks@.len());
                }
                if !same_values(&self.stack, &expected) {
                    let mut stack = expected;
                    stack.push(cond);
                    assert(stack@ =~= start.stack);
                    self.rollback(known);
                    proof {
                        assert(built_on(start, self.state())) by {
                            assert forall|b: int|
                                0 <= b < start.func.blocks.len() && b != start.cur implies #[trigger]
                                self.state().func.blocks[b] == start.func.blocks[b] by {
                                assert(after.func.blocks[b] == inner.func.blocks[b]);
                            }
                            assert(after.func.blocks[start.cur] == inner.func.blocks[start.cur]);
                            assert(start.func.blocks[start.cur].insts.is_prefix_of(
                                self.state().func.blocks[start.cur].insts,
                            ));
                            assert(self.state().module =~= start.module);
                            assert(start.module.is_prefix_of(self.state().module));
                        }
                        assert(self.state().module =~= start.module);
                    }
                    let insts = self.func.blocks[from].insts.len();
                    assert(insts == start.func.blocks[start.cur].insts.len()) by {
                        assert(after.func.blocks[start.cur] == inner.func.blocks[start.cur]);
                        assert(self.state().func.blocks[from as int] == self.func.blocks@[from as int]@);
                    }
                    self.restore(blocks, from, insts, stack, Ghost(start));
                    return Err(self.fault(ErrorKind::UnbalancedBranch, at));
                }
                let last = self.cur;
                self.add_block();
                assert(self.state().func.blocks.len() == after.func.blocks.len() + 1);
                self.add_block();
                assert(self.state().func.blocks.len() == after.func.blocks.len() + 2);
                assert(self.func.blocks@.len() == self.state().func.blocks.len());
                let count = self.func.blocks.len();
                let else_block = count - 2;
                let cont_block = count - 1;
                self.terminate(last, Terminator::Jump(cont_block));
                self.terminate(from, Terminator::Branch { cond, then_block, else_block });
                self.terminate(else_block, Terminator::Jump(cont_block));
                self.cur = cont_block;
                proof {
                    let want = after.close_branch(from as int, cond, then_block as int);
                    assert(self.state().func.blocks =~= want.func.blocks);
                    assert(self.state() =~= want);
                    let op = OpView::If(ops_view(body@));
                    self.lemma_fits();
                    lemma_op_built(old(self).defs(), old(self).active(), start, op, at as int);
                    lemma_op_ok(old(self).defs(), old(self).active(), start, op, at as int);
                }
                Ok(())
            },
            Err(e) => {
                assert(self.state() == inner);
                assert(self.func.blocks@.len() == inner.func.blocks.len());
                let ghost kept = self.func.blocks@;
                self.func.blocks.truncate(blocks);
                self.cur = from;
                self.stack.push(cond);
                proof {
                    assert(self.stack@ =~= start.stack);
                    assert forall|b: int| 0 <= b < blocks implies self.func@.blocks[b]
                        == start.func.blocks[b] by {
                        assert(self.func.blocks@[b] == kept[b]);
                        assert(inner.func.blocks[b] == kept[b]@);
                    }
                    assert(self.func@.blocks =~= start.func.blocks);
                    assert(self.state() =~= start);
                }
                Err(e)
            },
        }
    }

    /// Compiles a reference to a function, a constant or a procedure.
    fn compile_word(&mut self, word: &String, at: usize) -> (done: Result<(), CompileError>)
        requires
            old(self).wf(),
        ensures
            final(self).wf(),
            final(self).defs() == old(self).defs(),
            final(self).active() == old(self).active(),
            match gen_op(
                old(self).defs(),
                old(self).active(),
                old(self).state(),
                OpView::Word(word@),
                at as int,
            ) {
                Ok(s) => done is Ok && final(self).state() == s,
                Err(e) => done matches Err(err) && err@ == e && final(self).state() == old(
                    self,
                ).state(),
            },
        decreases level(old(self).defs(), old(self).active()), OpView::Word(word@), 0nat,
    {
        proof {
            self.lemma_ready();
        }
        let ghost start = old(self).state();
        let ghost op = OpView::Word(word@);
        if let Some(f) = self.module.get_function(word) {
            let done = self.call_function(f, at);
            proof {
                if done is Ok {
                    self.lemma_fits();
                    lemma_op_built(old(self).defs(), old(self).active(), start, op, at as int);
                    lemma_op_ok(old(self).defs(), old(self).active(), start, op, at as int);
                }
            }
            return done;
        }
        let known = self.module.functions.len();
        let defs = self.defs;
        if let Some(constant) = lookup_const(defs, word) {
            if contains_name(&self.active, word) {
                return Err(self.fault(ErrorKind::RecursiveDefinition(word.clone()), at));
            }
            proof {
                let k = find_const(self.defs(), word@, 0).unwrap();
                lemma_find_const(self.defs(), word@, 0);
                lemma_remaining_enter(self.defs(), self.active(), word@, k);
            }
            self.enter(word);
            let done = self.compile_ops(&constant.ops);
            proof {
                self.lemma_ready();
            }
            self.leave();
            assert(self.active() =~= old(self).active());
            return done;
        }
        if let Some(proc) = lookup_proc(defs, word) {
            if contains_name(&self.active, word) {
                return Err(self.fault(ErrorKind::RecursiveDefinition(word.clone()), at));
            }
            proof {
                let k = find_proc(self.defs(), word@, 0).unwrap();
                lemma_find_proc(self.defs(), word@, 0);
                lemma_remaining_enter(self.defs(), self.active(), word@, k);
            }
            self.enter(word);
            let done = self.compile_body(proc);
            proof {
                self.lemma_ready();
            }
            self.leave();
            assert(self.active() =~= old(self).active());
            if let Err(e) = done {
                return Err(e);
            }
            let ghost built = self.state();
            proof {
                lemma_proc_built(old(self).defs(), old(self).active().push(word@), start, proc@);
            }
            let called = match self.module.get_function(word) {
                Some(f) => self.call_function(f, at),
                None => Err(self.fault(ErrorKind::UnresolvedReference(word.clone()), at)),
            };
            if called.is_err() {
                self.rollback(known);
                assert(self.state().module =~= start.module);
                assert(self.state() =~= start);
            } else {
                proof {
                    self.lemma_fits();
                    lemma_op_built(old(self).defs(), old(self).active(), start, op, at as int);
                    lemma_op_ok(old(self).defs(), old(self).active(), start, op, at as int);
                }
            }
            return called;
        }
        Err(self.fault(ErrorKind::UnresolvedReference(word.clone()), at))
    }

    /// Compiles a procedure that was entered: builds its function from the
    /// body, with the parameters on the stack, and adds it to the module.
    /// The function that was being built and the stack are set aside
    /// meanwhile.
    fn compile_body(&mut self, proc: &Proc) -> (done: Result<(), CompileError>)
        requires
            old(self).wf(),
        ensures
            final(self).wf(),
            final(self).defs() == old(self).defs(),
            final(self).active() == old(self).active(),
            match gen_proc(old(self).defs(), old(self).active(), old(self).state(), proc@) {
                Ok(s) => done is Ok && final(self).state() == s,
                Err(e) => done matches Err(err) && err@ == e && final(self).state() == old(
                    self,
                ).state(),
            },
        decreases level(old(self).defs(), old(self).active()) + 1, ops_view(proc.ops@), 0nat,
    {
        let ghost first = old(self).state();
        let known = self.module.functions.len();
        let mut blocks: Vec<Block> = Vec::new();
        blocks.push(Block::empty());
        let mut func = Function {
            name: proc.name.clone(),
            params: copy_types(&proc.inputs),
            results: Vec::new(),
            blocks,
        };
        assert(func@.blocks =~= seq![BlockView::empty()]);
        assert(func@ =~= FunctionView::begin(proc@.name, proc@.inputs));
        let mut stack = param_values(proc.inputs.len());
        let mut cur: usize = 0;
        core::mem::swap(&mut self.func, &mut func);
        core::mem::swap(&mut self.stack, &mut stack);
        core::mem::swap(&mut self.cur, &mut cur);
        let ghost start = first.open_proc(proc@);
        proof {
            assert(self.state() =~~= start);
            lemma_open_proc_ok(first, proc@);
            assert(proc@.inputs.len() == proc.inputs.len());
            lemma_open_proc_partial_ok(first, proc@);
        }
        let body = self.compile_ops(&proc.ops);
        if let Err(e) = body {
            core::mem::swap(&mut self.func, &mut func);
            core::mem::swap(&mut self.stack, &mut stack);
            core::mem::swap(&mut self.cur, &mut cur);
            assert(self.state() =~= first);
            return Err(e);
        }
        let ghost after = self.state();
        proof {
            self.lemma_ready();
            lemma_ops_built(old(self).defs(), old(self).active(), start, ops_view(proc.ops@), 0);
        }
        let declared = proc.outputs.len();
        if declared > 0 && self.stack.len() != declared {
            self.rollback(known);
            core::mem::swap(&mut self.func, &mut func);
            core::mem::swap(&mut self.stack, &mut stack);
            core::mem::swap(&mut self.cur, &mut cur);
            assert(self.state().module =~= first.module);
            assert(self.state() =~= first);
            return Err(
                CompileError {
                    kind: ErrorKind::MalformedReturn,
                    definition: proc.name.clone(),
                    index: proc.ops.len(),
                },
            );
        }
        let results = if declared > 0 {
            copy_types(&proc.outputs)
        } else {
            int_types(self.stack.len())
        };
        core::mem::swap(&mut self.stack, &mut stack);
        let last = self.cur;
        self.terminate(last, Terminator::Return(stack));
        self.func.results = results;
        core::mem::swap(&mut self.func, &mut func);
        core::mem::swap(&mut self.cur, &mut cur);
        assert(func@ =~= after.finished(proc@.outputs));
        self.module.functions.push(func);
        assert(self.module@ =~= after.module.push(after.finished(proc@.outputs)));
        proof {
            self.lemma_fits();
            lemma_proc_built(old(self).defs(), old(self).active(), first, proc@);
            lemma_proc_ok(old(self).defs(), old(self).active(), first, proc@);
            assert(self.state() == (GenState { module: self.state().module, ..first }));
            lemma_module_grown_ok(first, self.state().module);
        }
        Ok(())
    }

    /// Compiles a sequence of operations in order, into the function that
    /// is being built: each operation takes its operands from the simulated
    /// stack and leaves its results there.
    ///
    /// On failure the generator is as it was before the call.
    pub fn compile_ops(&mut self, ops: &Vec<Operation>) -> (done: Result<(), CompileError>)
        requires
            old(self).wf(),
        ensures
            final(self).wf(),
            final(self).defs() == old(self).defs(),
            final(self).active() == old(self).active(),
            match gen_ops(old(self).defs(), old(self).active(), old(self).state(), ops_view(ops@), 0) {
                Ok(s) => done is Ok && final(self).state() == s,
                Err(e) => done matches Err(err) && err@ == e && final(self).state() == old(
                    self,
                ).state(),
            },
        decreases level(old(self).defs(), old(self).active()), ops_view(ops@), 0nat,
    {
        proof {
            self.lemma_ready();
            lemma_ops_view(ops@);
        }
        let ghost start = old(self).state();
        let known = self.module.functions.len();
        let blocks = self.func.blocks.len();
        let cur = self.cur;
        let insts = self.func.blocks[cur].insts.len();
        let saved = copy_values(&self.stack);
        proof {
            assert(start.func.blocks.len() == blocks);
            assert(start.func.blocks[cur as int] == self.func.blocks@[cur as int]@);
            assert(built_on(start, start)) by {
                assert(start.func.blocks[start.cur].insts.is_prefix_of(
                    start.func.blocks[start.cur].insts,
                ));
                assert(start.module.is_prefix_of(start.module));
            }
        }
        let mut i: usize = 0;
        while i < ops.len()
            invariant
                i <= ops@.len(),
                self.wf(),
                self.defs() == old(self).defs(),
                self.active() == old(self).active(),
                start == old(self).state(),
                state_ok(start),
                partial_ok(start),
                built_on(start, self.state()),
                known == start.module.len(),
                blocks == start.func.blocks.len(),
                cur == start.cur,
                insts == start.func.blocks[start.cur].insts.len(),
                saved@ == start.stack,
                ops_view(ops@).len() == ops@.len(),
                forall|j: int| 0 <= j < ops@.len() ==> #[trigger] ops_view(ops@)[j] == ops@[j]@,
                gen_ops(old(self).defs(), old(self).active(), start, ops_view(ops@), 0) == gen_ops(
                    self.defs(),
                    self.active(),
                    self.state(),
                    ops_view(ops@),
                    i as int,
                ),
            decreases ops@.len() - i,
        {
            let ghost before = self.state();
            if let Err(e) = self.compile_op(&ops[i], i) {
                proof {
                    self.lemma_ready();
                }
                self.rollback(known);
                proof {
                    assert(self.state().module =~= start.module);
                    assert(built_on(start, self.state())) by {
                        assert(start.module.is_prefix_of(self.state().module));
                    }
                }
                self.restore(blocks, cur, insts, saved, Ghost(start));
                return Err(e);
            }
            proof {
                lemma_op_built(self.defs(), self.active(), before, ops_view(ops@)[i as int], i as int);
                lemma_built_trans(start, before, self.state());
            }
            i += 1;
        }
        Ok(())
    }

    /// Compiles a procedure into a function of the module, unless the
    /// module holds a function of its name already. Procedures that its body
    /// refers to and that the module lacks are compiled first.
    ///
    /// On failure the generator is as it was before the call: no function
    /// of the procedure's name has been added, and none of those it refers
    /// to.
    pub fn compile_proc(&mut self, proc: &Proc) -> (done: Result<(), CompileError>)
        requires
            old(self).wf(),
        ensures
            final(self).wf(),
            final(self).defs() == old(self).defs(),
            final(self).active() == old(self).active(),
            match gen_entry(old(self).defs(), old(self).active(), old(self).state(), proc@) {
                Ok(s) => done is Ok && final(self).state() == s,
                Err(e) => done matches Err(err) && err@ == e && final(self).state() == old(
                    self,
                ).state(),
            },
    {
        if self.module.get_function(&proc.name).is_some() {
            return Ok(());
        }
        if contains_name(&self.active, &proc.name) {
            return Err(self.fault(ErrorKind::RecursiveDefinition(proc.name.clone()), 0));
        }
        proof {
            self.lemma_ready();
        }
        self.enter(&proc.name);
        let done = self.compile_body(proc);
        proof {
            self.lemma_ready();
        }
        self.leave();
        assert(self.active() =~= old(self).active());
        done
    }

    /// Compiles every procedure, in the order of the definitions: one
    /// function for each. A procedure that was compiled already, on a
    /// reference from an earlier one, is passed over, and so is one whose
    /// name an earlier procedure has.
    ///
    /// On failure the generator is as it was before the call.
    pub fn compile(&mut self) -> (done: Result<(), CompileError>)
        requires
            old(self).wf(),
        ensures
            final(self).wf(),
            final(self).defs() == old(self).defs(),
            final(self).active() == old(self).active(),
            match gen_all(old(self).defs(), old(self).active(), old(self).state(), 0) {
                Ok(s) => done is Ok && final(self).state() == s,
                Err(e) => done matches Err(err) && err@ == e && final(self).state() == old(
                    self,
                ).state(),
            },
    {
        let known = self.module.functions.len();
        let defs = self.defs;
        let ghost start = old(self).state();
        let mut i: usize = 0;
        while i < defs.len()
            invariant
                i <= defs@.len(),
                defs_view(defs@) == old(self).defs(),
                self.wf(),
                self.defs() == old(self).defs(),
                self.active() == old(self).active(),
                start == old(self).state(),
                state_ok(start),
                partial_ok(start),
                known == start.module.len(),
                start.module.is_prefix_of(self.state().module),
                self.state().func == start.func,
                self.state().cur == start.cur,
                self.state().stack == start.stack,
                gen_all(old(self).defs(), old(self).active(), start, 0) == gen_all(
                    self.defs(),
                    self.active(),
                    self.state(),
                    i as int,
                ),
            decreases defs@.len() - i,
        {
            if let Definition::Proc(proc) = &defs[i] {
                let ghost before = self.state();
                if let Err(e) = self.compile_proc(proc) {
                    proof {
                        self.lemma_ready();
                    }
                    self.rollback(known);
                    assert(self.state().module =~= start.module);
                    assert(self.state() =~= start);
                    return Err(e);
                }
                proof {
                    if find_function(before.module, proc@.name, 0) is None {
                        lemma_proc_built(
                            self.defs(),
                            self.active().push(proc@.name),
                            before,
                            proc@,
                        );
                    }
                }
            }
            i += 1;
        }
        Ok(())
    }
}

} // verus!
