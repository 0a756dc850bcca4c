//! The program representation shared by the parser and the code generator:
//! definitions, operations and types, together with their mathematical views.

use vstd::prelude::*;

verus! {

/// The types of the language: a closed enumeration with a single member,
/// the 64-bit integer.
#[derive(Debug, Clone, Copy, PartialEq, Eq, Structural)]
pub enum Type {
    Int,
}

/// One operation of a body. Order within a body is the order of execution.
#[derive(Debug, PartialEq, Eq)]
pub enum Operation {
    /// Pushes the literal.
    Integer(u64),
    /// A reference to a procedure or constant, resolved during generation.
    Word(String),
    /// Pops a condition and runs the body when it is non-zero.
    If(Vec<Operation>),
    Add,
    Sub,
    Mul,
    DivMod,
    IDivMod,
    Equal,
    Drop,
    Dup,
    Print,
    Swap,
}

/// A callable unit: a name, a signature and a body.
#[derive(Debug, PartialEq, Eq)]
pub struct Proc {
    pub name: String,
    pub ops: Vec<Operation>,
    pub inputs: Vec<Type>,
    pub outputs: Vec<Type>,
}

/// A named operation sequence that is inlined wherever it is referenced.
#[derive(Debug, PartialEq, Eq)]
pub struct Const {
    pub name: String,
    pub ops: Vec<Operation>,
}

/// A top-level unit of a program.
#[derive(Debug, PartialEq, Eq)]
pub enum Definition {
    Proc(Proc),
    Const(Const),
}

/// The mathematical value of an [`Operation`].
pub enum OpView {
    Integer(u64),
    Word(Seq<char>),
    If(Seq<OpView>),
    Add,
    Sub,
    Mul,
    DivMod,
    IDivMod,
    Equal,
    Drop,
    Dup,
    Print,
    Swap,
}

/// The mathematical value of a [`Proc`].
pub struct ProcView {
    pub name: Seq<char>,
    pub ops: Seq<OpView>,
    pub inputs: Seq<Type>,
    pub outputs: Seq<Type>,
}

/// The mathematical value of a [`Const`].
pub struct ConstView {
    pub name: Seq<char>,
    pub ops: Seq<OpView>,
}

/// The mathematical value of a [`Definition`].
pub enum DefView {
    Proc(ProcView),
    Const(ConstView),
}

impl DefView {
    /// The name under which the definition is referenced.
    pub open spec fn name(self) -> Seq<char> {
        match self {
            DefView::Proc(p) => p.name,
            DefView::Const(c) => c.name,
        }
    }
}

/// The view of an operation sequence, element by element.
pub open spec fn ops_view(ops: Seq<Operation>) -> Seq<OpView>
    decreases ops,
{
    Seq::new(
        ops.len(),
        |i: int|
            if 0 <= i < ops.len() {
                op_view(ops[i])
            } else {
                OpView::Add
            },
    )
}

/// The view of a single operation.
pub open spec fn op_view(op: Operation) -> OpView
    decreases op,
{
    match op {
        Operation::Integer(n) => OpView::Integer(n),
        Operation::Word(w) => OpView::Word(w@),
        Operation::If(body) => OpView::If(ops_view(body@)),
        Operation::Add => OpView::Add,
        Operation::Sub => OpView::Sub,
        Operation::Mul => OpView::Mul,
        Operation::DivMod => OpView::DivMod,
        Operation::IDivMod => OpView::IDivMod,
        Operation::Equal => OpView::Equal,
        Operation::Drop => OpView::Drop,
        Operation::Dup => OpView::Dup,
        Operation::Print => OpView::Print,
        Operation::Swap => OpView::Swap,
    }
}

impl View for Operation {
    type V = OpView;

    open spec fn view(&self) -> OpView {
        op_view(*self)
    }
}

impl View for Proc {
    type V = ProcView;

    open spec fn view(&self) -> ProcView {
        ProcView {
            name: self.name@,
            ops: ops_view(self.ops@),
            inputs: self.inputs@,
            outputs: self.outputs@,
        }
    }
}

impl View for Const {
    type V = ConstView;

    open spec fn view(&self) -> ConstView {
        ConstView { name: self.name@, ops: ops_view(self.ops@) }
    }
}

impl View for Definition {
    type V = DefView;

    open spec fn view(&self) -> DefView {
        match self {
            Definition::Proc(p) => DefView::Proc(p@),
            Definition::Const(c) => DefView::Const(c@),
        }
    }
}

/// The view of a definition sequence, element by element.
pub open spec fn defs_view(defs: Seq<Definition>) -> Seq<DefView> {
    Seq::new(defs.len(), |i: int| defs[i]@)
}

/// The view of a sequence is as long as the sequence, and its elements are
/// the views of the elements.
pub proof fn lemma_ops_view(ops: Seq<Operation>)
    ensures
        ops_view(ops).len() == ops.len(),
        forall|i: int| 0 <= i < ops.len() ==> #[trigger] ops_view(ops)[i] == ops[i]@,
{
}

} // verus!
