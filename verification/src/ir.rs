//! The target form that the code generator emits: a module of functions,
//! each a list of basic blocks of instructions in single-assignment form.
//!
//! Every value is a 64-bit integer. An instruction is named by its place:
//! the value `Reg { block, inst, slot }` is result number `slot` of
//! instruction number `inst` of block number `block`.

use vstd::prelude::*;
use crate::ast::Type;

verus! {

/// An operand of an instruction.
#[derive(Debug, Clone, Copy, PartialEq, Eq, Structural)]
pub enum Value {
    /// An integer constant.
    Const(u64),
    /// A parameter of the enclosing function, by position.
    Param(usize),
    /// A result of an earlier instruction of the enclosing function.
    Reg { block: usize, inst: usize, slot: usize },
}

/// The two-operand instructions.
#[derive(Debug, Clone, Copy, PartialEq, Eq, Structural)]
pub enum BinOp {
    Add,
    Sub,
    Mul,
    /// Unsigned quotient.
    UDiv,
    /// Unsigned remainder.
    URem,
    /// Signed quotient, rounded towards zero.
    SDiv,
    /// Signed remainder, with the sign of the dividend.
    SRem,
    /// One when the operands are equal, zero otherwise.
    Eq,
}

/// An instruction. A `Binary` has one result; a `Call` has as many as the
/// callee returns.
#[derive(Debug, PartialEq, Eq)]
pub enum Inst {
    Binary { op: BinOp, lhs: Value, rhs: Value },
    Call { callee: usize, args: Vec<Value> },
}

/// How a block ends.
#[derive(Debug, PartialEq, Eq)]
pub enum Terminator {
    /// The block is still being filled.
    Open,
    /// Leaves the function with these values, in order.
    Return(Vec<Value>),
    /// Goes on in another block.
    Jump(usize),
    /// Goes on in `then_block` when `cond` is non-zero, else in `else_block`.
    Branch { cond: Value, then_block: usize, else_block: usize },
}

/// A basic block.
#[derive(Debug, PartialEq, Eq)]
pub struct Block {
    pub insts: Vec<Inst>,
    pub term: Terminator,
}

/// A function of the module. One without blocks is an external declaration.
#[derive(Debug, PartialEq, Eq)]
pub struct Function {
    pub name: String,
    pub params: Vec<Type>,
    pub results: Vec<Type>,
    pub blocks: Vec<Block>,
}

/// The target program: functions in the order in which they were finished.
#[derive(Debug, PartialEq, Eq)]
pub struct TargetModule {
    pub functions: Vec<Function>,
}

/// The mathematical value of an [`Inst`].
pub enum InstView {
    Binary { op: BinOp, lhs: Value, rhs: Value },
    Call { callee: int, args: Seq<Value> },
}

/// The mathematical value of a [`Terminator`].
pub enum TermView {
    Open,
    Return(Seq<Value>),
    Jump(int),
    Branch { cond: Value, then_block: int, else_block: int },
}

/// The mathematical value of a [`Block`].
pub struct BlockView {
    pub insts: Seq<InstView>,
    pub term: TermView,
}

/// The mathematical value of a [`Function`].
pub struct FunctionView {
    pub name: Seq<char>,
    pub params: Seq<Type>,
    pub results: Seq<Type>,
    pub blocks: Seq<BlockView>,
}

impl View for Inst {
    type V = InstView;

    open spec fn view(&self) -> InstView {
        match self {
            Inst::Binary { op, lhs, rhs } => InstView::Binary { op: *op, lhs: *lhs, rhs: *rhs },
            Inst::Call { callee, args } => InstView::Call { callee: *callee as int, args: args@ },
        }
    }
}

impl View for Terminator {
    type V = TermView;

    open spec fn view(&self) -> TermView {
        match self {
            Terminator::Open => TermView::Open,
            Terminator::Return(values) => TermView::Return(values@),
            Terminator::Jump(target) => TermView::Jump(*target as int),
            Terminator::Branch { cond, then_block, else_block } => TermView::Branch {
                cond: *cond,
                then_block: *then_block as int,
                else_block: *else_block as int,
            },
        }
    }
}

impl View for Block {
    type V = BlockView;

    open spec fn view(&self) -> BlockView {
        BlockView { insts: Seq::new(self.insts@.len(), |i: int| self.insts@[i]@), term: self.term@ }
    }
}

impl View for Function {
    type V = FunctionView;

    open spec fn view(&self) -> FunctionView {
        FunctionView {
            name: self.name@,
            params: self.params@,
            results: self.results@,
            blocks: Seq::new(self.blocks@.len(), |i: int| self.blocks@[i]@),
        }
    }
}

impl View for TargetModule {
    type V = Seq<FunctionView>;

    open spec fn view(&self) -> Seq<FunctionView> {
        Seq::new(self.functions@.len(), |i: int| self.functions@[i]@)
    }
}

impl BlockView {
    /// A block without instructions that is still being filled.
    pub open spec fn empty() -> BlockView {
        BlockView { insts: Seq::empty(), term: TermView::Open }
    }
}

impl FunctionView {
    /// An external declaration has no blocks.
    pub open spec fn is_external(self) -> bool {
        self.blocks.len() == 0
    }
}

/// The name of the external function that prints an integer.
pub open spec fn print_name() -> Seq<char> {
    "print"@
}

/// The declaration of the external `print`: one integer in, nothing out.
pub open spec fn print_decl() -> FunctionView {
    FunctionView {
        name: print_name(),
        params: seq![Type::Int],
        results: Seq::empty(),
        blocks: Seq::empty(),
    }
}

/// The index of the first function of that name.
pub open spec fn find_function(module: Seq<FunctionView>, name: Seq<char>, from: int) -> Option<int>
    decreases module.len() - from,
{
    if from < 0 || from >= module.len() {
        None
    } else if module[from].name == name {
        Some(from)
    } else {
        find_function(module, name, from + 1)
    }
}

/// A search that succeeds finds a function of the name that was asked for,
/// and none of that name stands before it.
pub proof fn lemma_find_function(module: Seq<FunctionView>, name: Seq<char>, from: int)
    ensures
        match find_function(module, name, from) {
            Some(k) => from <= k < module.len() && module[k].name == name && forall|j: int|
                from <= j < k ==> (#[trigger] module[j]).name != name,
            None => forall|j: int| 0 <= from <= j < module.len() ==> (#[trigger] module[j]).name != name,
        },
    decreases module.len() - from,
{
    if 0 <= from < module.len() && module[from].name != name {
        lemma_find_function(module, name, from + 1);
    }
}


impl Block {
    /// A block without instructions that is still being filled.
    pub fn empty() -> (block: Block)
        ensures
            block@ == BlockView::empty(),
    {
        let block = Block { insts: Vec::new(), term: Terminator::Open };
        assert(block@.insts =~= Seq::empty());
        block
    }
}

impl TargetModule {
    /// A module that holds the declaration of the external `print` and
    /// nothing else.
    pub fn new() -> (module: TargetModule)
        ensures
            module@ == seq![print_decl()],
    {
        let mut params: Vec<Type> = Vec::new();
        params.push(Type::Int);
        let print = Function {
            name: String::from_str("print"),
            params,
            results: Vec::new(),
            blocks: Vec::new(),
        };
        assert(print@.params =~= seq![Type::Int]);
        assert(print@.blocks =~= Seq::empty());
        let mut functions: Vec<Function> = Vec::new();
        functions.push(print);
        let module = TargetModule { functions };
        assert(module@ =~= seq![print_decl()]);
        module
    }

    /// The index of the first function of that name, if there is one.
    pub fn get_function(&self, name: &String) -> (found: Option<usize>)
        ensures
            match found {
                Some(i) => find_function(self@, name@, 0) == Some(i as int) && i < self.functions@.len(),
                None => find_function(self@, name@, 0) is None,
            },
    {
        let mut i: usize = 0;
        while i < self.functions.len()
            invariant
                i <= self.functions@.len(),
                find_function(self@, name@, 0) == find_function(self@, name@, i as int),
            decreases self.functions@.len() - i,
        {
            if self.functions[i].name == *name {
                return Some(i);
            }
            i += 1;
        }
        None
    }
}

} // verus!
