//! The part of the compiler's MIR that the mutations read and build.
//!
//! Whatever the mutations only carry along (types, regions, spans, the statements and
//! terminators of the analysed function) is a handle: an index into a table that the
//! caller keeps.

use vstd::prelude::*;

verus! {

#[derive(Clone, Copy, Debug, PartialEq, Eq, Structural)]
pub enum Mutability {
    Not,
    Mut,
}

#[derive(Clone, Copy, Debug, PartialEq, Eq, Structural)]
pub enum MutBorrowKind {
    Default,
    TwoPhaseBorrow,
    ClosureCapture,
}

#[derive(Clone, Copy, Debug, PartialEq, Eq, Structural)]
pub enum FakeBorrowKind {
    Shallow,
    Deep,
}

#[derive(Clone, Copy, Debug, PartialEq, Eq, Structural)]
pub enum BorrowKind {
    Shared,
    Fake(FakeBorrowKind),
    Mut { kind: MutBorrowKind },
}

/// A lifetime. `MaxVar` is the region variable with the greatest index.
#[derive(Clone, Copy, Debug, PartialEq, Eq, Structural)]
pub enum Region {
    Interned(usize),
    MaxVar,
}

/// A type: a reference, or the handle of any other type.
#[derive(Debug)]
pub enum Ty {
    Ref { region: Region, ty: Box<Ty>, mutability: Mutability },
    Other(usize),
}

impl Clone for Ty {
    fn clone(&self) -> (res: Self)
        ensures
            res == *self,
        decreases self,
    {
        match self {
            Ty::Ref { region, ty, mutability } => {
                let pointee: Ty = (&**ty).clone();
                Ty::Ref { region: *region, ty: Box::new(pointee), mutability: *mutability }
            },
            Ty::Other(handle) => Ty::Other(*handle),
        }
    }
}

impl Ty {
    /// The mutability of a reference type, and nothing for any other type.
    pub open spec fn spec_ref_mutability(self) -> Option<Mutability> {
        match self {
            Ty::Ref { mutability, .. } => Some(mutability),
            Ty::Other(_) => None,
        }
    }

    pub fn ref_mutability(&self) -> (res: Option<Mutability>)
        ensures
            res == self.spec_ref_mutability(),
    {
        match self {
            Ty::Ref { mutability, .. } => Some(*mutability),
            Ty::Other(_) => None,
        }
    }

    /// The type `&'region mut ty`.
    pub open spec fn spec_new_mut_ref(region: Region, ty: Ty) -> Ty {
        Ty::Ref { region, ty: Box::new(ty), mutability: Mutability::Mut }
    }

    pub fn new_mut_ref(region: Region, ty: Ty) -> (res: Ty)
        ensures
            res == Ty::spec_new_mut_ref(region, ty),
    {
        Ty::Ref { region, ty: Box::new(ty), mutability: Mutability::Mut }
    }
}

/// A memory location: a local variable and a list of projections (field accesses,
/// dereferences). The list is interned; the empty list has handle 0.
#[derive(Clone, Copy, Debug, PartialEq, Eq, Structural)]
pub struct Place {
    pub local: usize,
    pub projection: usize,
}

pub const NO_PROJECTION: usize = 0;

impl Place {
    pub open spec fn spec_from_local(local: usize) -> Place {
        Place { local, projection: NO_PROJECTION }
    }

    /// The place that is the whole of a local variable.
    pub fn from_local(local: usize) -> (res: Place)
        ensures
            res == Place::spec_from_local(local),
    {
        Place { local, projection: NO_PROJECTION }
    }
}

#[derive(Clone, Copy, Debug, PartialEq, Eq, Structural)]
pub struct SourceInfo {
    pub span: usize,
    pub scope: usize,
}

#[derive(Clone, Copy, Debug, PartialEq, Eq, Structural)]
pub enum ByRef {
    Yes(Mutability),
    No,
}

/// How a pattern binds a name: by value or by reference, mutably or not.
#[derive(Clone, Copy, Debug, PartialEq, Eq, Structural)]
pub struct BindingMode {
    pub by_ref: ByRef,
    pub mutability: Mutability,
}

#[derive(Clone, Copy, Debug, PartialEq, Eq, Structural)]
pub struct VarBindingForm {
    pub binding_mode: BindingMode,
    pub opt_ty_info: Option<usize>,
    pub opt_match_place: Option<usize>,
    pub pat_span: usize,
}

#[derive(Clone, Copy, Debug, PartialEq, Eq, Structural)]
pub enum BindingForm {
    Var(VarBindingForm),
    Other(usize),
}

/// What a local stands for. Only a variable or parameter that the user named is `User`.
#[derive(Clone, Copy, Debug, PartialEq, Eq, Structural)]
pub enum LocalInfo {
    User(BindingForm),
    Other(usize),
}

#[derive(Debug)]
pub struct LocalDecl {
    pub ty: Ty,
    pub source_info: SourceInfo,
    pub local_info: LocalInfo,
}

impl Clone for LocalDecl {
    fn clone(&self) -> (res: Self)
        ensures
            res == *self,
    {
        LocalDecl {
            ty: self.ty.clone(),
            source_info: self.source_info,
            local_info: self.local_info,
        }
    }
}

impl LocalDecl {
    pub open spec fn spec_is_user_variable(self) -> bool {
        self.local_info is User
    }

    /// Whether this is a named variable or parameter that the user declared.
    pub fn is_user_variable(&self) -> (res: bool)
        ensures
            res == self.spec_is_user_variable(),
    {
        match self.local_info {
            LocalInfo::User(_) => true,
            LocalInfo::Other(_) => false,
        }
    }
}

#[derive(Clone, Copy, Debug, PartialEq, Eq, Structural)]
pub enum Operand {
    Copy(Place),
    Move(Place),
}

#[derive(Clone, Copy, Debug, PartialEq, Eq, Structural)]
pub enum Rvalue {
    Use(Operand),
    Ref(Region, BorrowKind, Place),
    Len(Place),
}

/// `Original` is a statement of the analysed function, by handle.
#[derive(Clone, Copy, Debug, PartialEq, Eq, Structural)]
pub enum StatementKind {
    Assign(Place, Rvalue),
    Original(usize),
}

#[derive(Clone, Copy, Debug, PartialEq, Eq, Structural)]
pub struct Statement {
    pub source_info: SourceInfo,
    pub kind: StatementKind,
}

/// `Original` is a terminator of the analysed function, by handle.
#[derive(Clone, Copy, Debug, PartialEq, Eq, Structural)]
pub enum TerminatorKind {
    Unreachable,
    FalseEdge { real_target: usize, imaginary_target: usize },
    Original(usize),
}

#[derive(Clone, Copy, Debug, PartialEq, Eq, Structural)]
pub struct Terminator {
    pub source_info: SourceInfo,
    pub kind: TerminatorKind,
}

#[derive(Debug)]
pub struct BasicBlockData {
    pub statements: Vec<Statement>,
    pub terminator: Option<Terminator>,
}

#[verifier::ext_equal]
pub struct BlockView {
    pub statements: Seq<Statement>,
    pub terminator: Option<Terminator>,
}

impl View for BasicBlockData {
    type V = BlockView;

    open spec fn view(&self) -> BlockView {
        BlockView { statements: self.statements@, terminator: self.terminator }
    }
}

/// Copies a statement list.
fn copy_statements(statements: &Vec<Statement>) -> (res: Vec<Statement>)
    ensures
        res@ == statements@,
{
    let mut res: Vec<Statement> = Vec::new();
    let mut i: usize = 0;
    while i < statements.len()
        invariant
            i <= statements.len(),
            res@ == statements@.take(i as int),
        decreases statements.len() - i,
    {
        res.push(statements[i]);
        i = i + 1;
    }
    res
}

impl Clone for BasicBlockData {
    fn clone(&self) -> (res: Self)
        ensures
            res@ == self@,
    {
        BasicBlockData { statements: copy_statements(&self.statements), terminator: self.terminator }
    }
}

/// The MIR of one function.
#[derive(Debug)]
pub struct Body {
    pub basic_blocks: Vec<BasicBlockData>,
    pub local_decls: Vec<LocalDecl>,
}

#[verifier::ext_equal]
pub struct BodyView {
    pub blocks: Seq<BlockView>,
    pub locals: Seq<LocalDecl>,
}

impl View for Body {
    type V = BodyView;

    open spec fn view(&self) -> BodyView {
        BodyView {
            blocks: self.basic_blocks@.map_values(|block: BasicBlockData| block@),
            locals: self.local_decls@,
        }
    }
}

impl Clone for Body {
    fn clone(&self) -> (res: Self)
        ensures
            res@ == self@,
    {
        let mut basic_blocks: Vec<BasicBlockData> = Vec::new();
        let mut i: usize = 0;
        while i < self.basic_blocks.len()
            invariant
                i <= self.basic_blocks.len(),
                basic_blocks.len() == i,
                forall|j: int|
                    0 <= j < i ==> (#[trigger] basic_blocks@[j])@ == self.basic_blocks@[j]@,
            decreases self.basic_blocks.len() - i,
        {
            basic_blocks.push(self.basic_blocks[i].clone());
            i = i + 1;
        }
        let mut local_decls: Vec<LocalDecl> = Vec::new();
        let mut k: usize = 0;
        while k < self.local_decls.len()
            invariant
                k <= self.local_decls.len(),
                local_decls@ == self.local_decls@.take(k as int),
            decreases self.local_decls.len() - k,
        {
            local_decls.push(self.local_decls[k].clone());
            k = k + 1;
        }
        let res = Body { basic_blocks, local_decls };
        assert(res@.blocks =~= self@.blocks);
        res
    }
}

/// The index of a statement in a basic block; the index after the last statement is the
/// block's terminator.
#[derive(Clone, Copy, Debug, PartialEq, Eq, Structural)]
pub struct Location {
    pub block: usize,
    pub statement_index: usize,
}

impl BodyView {
    /// `location` is that of a statement of the body.
    pub open spec fn has_statement(self, location: Location) -> bool {
        &&& location.block < self.blocks.len()
        &&& location.statement_index < self.blocks[location.block as int].statements.len()
    }

    pub open spec fn statement_at(self, location: Location) -> Statement {
        self.blocks[location.block as int].statements[location.statement_index as int]
    }

    /// The body with `statement` put in directly after `location`.
    pub open spec fn insert_after(self, location: Location, statement: Statement) -> BodyView {
        let block = self.blocks[location.block as int];
        BodyView {
            blocks: self.blocks.update(
                location.block as int,
                BlockView {
                    statements: block.statements.insert(location.statement_index + 1, statement),
                    ..block
                },
            ),
            ..self
        }
    }

    /// The body with one more local.
    pub open spec fn push_local(self, decl: LocalDecl) -> BodyView {
        BodyView { locals: self.locals.push(decl), ..self }
    }
}

} // verus!
