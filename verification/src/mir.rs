//! A model of the part of rustc's MIR that the analysis and the optimisation read and write.
//!
//! Types and place projections are interned in a [`TyCtxt`], as rustc interns them: a [`Ty`] is an
//! index into `TyCtxt::types` and a [`ProjectionList`] names a list in `TyCtxt::projections`.
//! Everything else that the analysis never looks into (constants, aggregate operands, intrinsics,
//! source information) is carried as an opaque number chosen by whoever built the body.
use vstd::prelude::*;

verus! {

/// The index of a local variable of a body. `0` is the return place, `1..=arg_count` the arguments.
pub type Local = usize;

/// The index of an interned type in a [`TyCtxt`].
pub type Ty = usize;

/// The position of a statement in a body; `statement_index == statements.len()` is the terminator.
#[derive(Clone, Copy, Debug, PartialEq, Eq, Hash, Structural)]
pub struct Location {
    pub block: usize,
    pub statement_index: usize,
}

impl Location {
    /// The order of locations: by block, then by statement index.
    pub open spec fn precedes(self, other: Location) -> bool {
        self.block < other.block || (self.block == other.block && self.statement_index
            < other.statement_index)
    }

    /// Compares two locations in the order of [`Location::precedes`].
    pub fn is_before(&self, other: &Location) -> (r: bool)
        ensures
            r == self.precedes(*other),
    {
        self.block < other.block || (self.block == other.block && self.statement_index
            < other.statement_index)
    }

    /// The location of the first statement of `block`.
    pub fn start_location(block: usize) -> (r: Location)
        ensures
            r.block == block,
            r.statement_index == 0,
    {
        Location { block, statement_index: 0 }
    }

    /// The location just after this one in the same block.
    pub fn successor_within_block(&self) -> (r: Location)
        requires
            self.statement_index < usize::MAX,
        ensures
            r.block == self.block,
            r.statement_index == self.statement_index + 1,
    {
        Location { block: self.block, statement_index: self.statement_index + 1 }
    }
}

#[derive(Clone, Copy, Debug, PartialEq, Eq, Structural)]
pub enum Mutability {
    Not,
    Mut,
}

/// The kinds of type that the analysis tells apart.
#[derive(Clone, Copy, Debug, PartialEq, Eq, Structural)]
pub enum TyKind {
    Bool,
    Char,
    Int,
    Uint,
    Float,
    Str,
    Never,
    Adt(usize),
    Tuple(usize),
    Ref(Ty, Mutability),
    RawPtr(Ty, Mutability),
    /// `Box<T>`, which MIR dereferences like a pointer.
    Boxed(Ty),
    /// An array, with its length where it is known.
    Array(Ty, Option<u64>),
    Slice(Ty),
    Other,
}

#[derive(Clone, Copy, Debug, PartialEq, Eq, Structural)]
pub enum ProjectionElem {
    Deref,
    /// A field, with the field's type.
    Field(usize, Ty),
    Index(Local),
    ConstantIndex { offset: u64, min_length: u64, from_end: bool },
    Subslice { from: u64, to: u64, from_end: bool },
    Downcast(usize),
}

/// An interned list of projection elements.
#[derive(Clone, Copy, Debug, PartialEq, Eq, Structural)]
pub enum ProjectionList {
    Empty,
    Interned(usize),
}

/// The interner of types and of projection lists.
///
/// `copy_types[ty]` says whether the type implements `Copy`.
///
/// An id that the context does not hold stands for [`TyKind::Other`], for a type that is not
/// `Copy`, or for the empty list.
#[derive(Clone, Debug)]
pub struct TyCtxt {
    pub types: Vec<TyKind>,
    pub copy_types: Vec<bool>,
    pub projections: Vec<Vec<ProjectionElem>>,
}

/// The first id in `types` of a type of the given kind.
pub open spec fn first_ty_of_kind(types: Seq<TyKind>, kind: TyKind) -> Option<Ty>
    decreases types.len(),
{
    if types.len() == 0 {
        None
    } else {
        match first_ty_of_kind(types.drop_last(), kind) {
            Some(ty) => Some(ty),
            None => if types.last() == kind {
                Some((types.len() - 1) as Ty)
            } else {
                None
            },
        }
    }
}

impl TyCtxt {
    /// The type implements `Copy`.
    pub open spec fn spec_is_copy(self, ty: Ty) -> bool {
        ty < self.copy_types@.len() && self.copy_types@[ty as int]
    }

    pub fn is_copy(&self, ty: Ty) -> (r: bool)
        ensures
            r == self.spec_is_copy(ty),
    {
        ty < self.copy_types.len() && self.copy_types[ty]
    }

    /// The interned type of a kind, the first one where the context holds it twice.
    pub open spec fn ty_of_kind(self, kind: TyKind) -> Option<Ty> {
        first_ty_of_kind(self.types@, kind)
    }

    pub fn find_ty(&self, kind: TyKind) -> (r: Option<Ty>)
        ensures
            r == self.ty_of_kind(kind),
    {
        let mut i: usize = 0;
        while i < self.types.len()
            invariant
                i <= self.types@.len(),
                first_ty_of_kind(self.types@.take(i as int), kind) is None,
            decreases self.types@.len() - i,
        {
            assert(self.types@.take(i + 1).drop_last() =~= self.types@.take(i as int));
            if self.types[i] == kind {
                proof {
                    lemma_first_ty_of_kind_prefix(self.types@, kind, i + 1);
                }
                return Some(i);
            }
            i = i + 1;
        }
        assert(self.types@.take(i as int) =~= self.types@);
        None
    }

    pub open spec fn kind_of(self, ty: Ty) -> TyKind {
        if ty < self.types@.len() {
            self.types@[ty as int]
        } else {
            TyKind::Other
        }
    }

    pub open spec fn elems(self, list: ProjectionList) -> Seq<ProjectionElem> {
        match list {
            ProjectionList::Empty => Seq::empty(),
            ProjectionList::Interned(id) => if id < self.projections@.len() {
                self.projections@[id as int]@
            } else {
                Seq::empty()
            },
        }
    }

    /// The kind of an interned type.
    pub fn kind(&self, ty: Ty) -> (r: TyKind)
        ensures
            r == self.kind_of(ty),
    {
        if ty < self.types.len() {
            self.types[ty]
        } else {
            TyKind::Other
        }
    }

    /// The number of elements of an interned projection list.
    pub fn projection_len(&self, list: ProjectionList) -> (r: usize)
        ensures
            r == self.elems(list).len(),
    {
        match list {
            ProjectionList::Empty => 0,
            ProjectionList::Interned(id) => if id < self.projections.len() {
                self.projections[id].len()
            } else {
                0
            },
        }
    }

    /// The `i`-th element of an interned projection list.
    pub fn projection_elem(&self, list: ProjectionList, i: usize) -> (r: ProjectionElem)
        requires
            i < self.elems(list).len(),
        ensures
            r == self.elems(list)[i as int],
    {
        match list {
            ProjectionList::Empty => ProjectionElem::Deref,
            ProjectionList::Interned(id) => self.projections[id][i],
        }
    }

    /// Whether a projection list is exactly `[Deref]`, i.e. the place is `*x`.
    pub open spec fn spec_is_deref_only(self, list: ProjectionList) -> bool {
        self.elems(list) == seq![ProjectionElem::Deref]
    }

    pub fn is_deref_only(&self, list: ProjectionList) -> (r: bool)
        ensures
            r == self.spec_is_deref_only(list),
    {
        if self.projection_len(list) == 1 {
            let e = self.projection_elem(list, 0);
            let r = matches!(e, ProjectionElem::Deref);
            proof {
                if r {
                    assert(self.elems(list) =~= seq![ProjectionElem::Deref]);
                }
            }
            r
        } else {
            false
        }
    }
}

/// Once a prefix of `types` holds a type of the kind, the first one is found there.
proof fn lemma_first_ty_of_kind_prefix(types: Seq<TyKind>, kind: TyKind, n: int)
    requires
        0 < n <= types.len(),
        first_ty_of_kind(types.take(n), kind) is Some,
    ensures
        first_ty_of_kind(types, kind) == first_ty_of_kind(types.take(n), kind),
    decreases types.len() - n,
{
    if n < types.len() {
        assert(types.drop_last().take(n) =~= types.take(n));
        lemma_first_ty_of_kind_prefix(types.drop_last(), kind, n);
    } else {
        assert(types.take(n) =~= types);
    }
}

#[derive(Clone, Copy, Debug, PartialEq, Eq, Structural)]
pub struct Place {
    pub local: Local,
    pub projection: ProjectionList,
}

#[derive(Clone, Copy, Debug, PartialEq, Eq, Structural)]
pub enum Operand {
    Copy(Place),
    Move(Place),
    /// An opaque constant.
    Constant(usize),
}

#[derive(Clone, Copy, Debug, PartialEq, Eq, Structural)]
pub enum BorrowKind {
    Shared,
    Shallow,
    Unique,
    Mut { allow_two_phase_borrow: bool },
}

#[derive(Clone, Copy, Debug, PartialEq, Eq, Structural)]
pub enum CastKind {
    PointerExposeAddress,
    PointerFromExposedAddress,
    Pointer,
    IntToInt,
    Misc,
}

#[derive(Clone, Copy, Debug, PartialEq, Eq, Structural)]
pub enum BinOp {
    Add,
    Sub,
    Mul,
    Div,
    Rem,
    BitXor,
    BitAnd,
    BitOr,
    Shl,
    Shr,
    Eq,
    Lt,
    Le,
    Ne,
    Ge,
    Gt,
    Offset,
}

#[derive(Clone, Copy, Debug, PartialEq, Eq, Structural)]
pub enum UnOp {
    Not,
    Neg,
}

#[derive(Clone, Copy, Debug, PartialEq, Eq, Structural)]
pub enum NullOp {
    SizeOf,
    AlignOf,
}

#[derive(Clone, Copy, Debug, PartialEq, Eq, Structural)]
pub enum Rvalue {
    Use(Operand),
    Repeat(Operand, u64),
    Ref(BorrowKind, Place),
    /// An opaque thread-local static.
    ThreadLocalRef(usize),
    AddressOf(Mutability, Place),
    Len(Place),
    Cast(CastKind, Operand, Ty),
    BinaryOp(BinOp, Operand, Operand),
    CheckedBinaryOp(BinOp, Operand, Operand),
    NullaryOp(NullOp, Ty),
    UnaryOp(UnOp, Operand),
    Discriminant(Place),
    /// An aggregate whose kind and operands are opaque.
    Aggregate(usize),
    ShallowInitBox(Operand, Ty),
    CopyForDeref(Place),
}

#[derive(Clone, Copy, Debug, PartialEq, Eq, Structural)]
pub enum StatementKind {
    Assign(Place, Rvalue),
    FakeRead(Place),
    SetDiscriminant { place: Place, variant_index: usize },
    Deinit(Place),
    StorageLive(Local),
    StorageDead(Local),
    Retag(Place),
    AscribeUserType(Place),
    Coverage,
    /// An opaque intrinsic.
    Intrinsic(usize),
    Nop,
}

#[derive(Clone, Copy, Debug, PartialEq, Eq, Structural)]
pub struct Statement {
    /// Opaque source information.
    pub source_info: usize,
    pub kind: StatementKind,
}

#[derive(Clone, Copy, Debug, PartialEq, Eq, Structural)]
pub enum TerminatorKind {
    Goto { target: usize },
    SwitchInt,
    Resume,
    Abort,
    Return,
    Unreachable,
    Drop { place: Place, target: usize },
    DropAndReplace { place: Place, value: Operand, target: usize },
    Call { destination: Place },
    Assert,
    Yield,
    GeneratorDrop,
    FalseEdge,
    FalseUnwind,
    InlineAsm,
}

#[derive(Clone, Copy, Debug, PartialEq, Eq, Structural)]
pub struct Terminator {
    pub source_info: usize,
    pub kind: TerminatorKind,
}

#[derive(Clone, Debug)]
pub struct BasicBlockData {
    pub statements: Vec<Statement>,
    pub terminator: Terminator,
}

#[derive(Clone, Copy, Debug, PartialEq, Eq, Structural)]
pub struct LocalDecl {
    pub ty: Ty,
    /// Opaque source span.
    pub span: usize,
}

impl LocalDecl {
    pub fn new(ty: Ty, span: usize) -> (r: LocalDecl)
        ensures
            r.ty == ty,
            r.span == span,
    {
        LocalDecl { ty, span }
    }
}

/// Either a statement or the terminator of a block.
#[derive(Clone, Copy, Debug, PartialEq, Eq, Structural)]
pub enum StatementOrTerminator {
    Statement(Statement),
    Terminator(Terminator),
}

#[derive(Clone, Debug)]
pub struct Body {
    pub basic_blocks: Vec<BasicBlockData>,
    pub local_decls: Vec<LocalDecl>,
    pub arg_count: usize,
    /// Opaque source span of the whole body.
    pub span: usize,
}

impl Body {
    /// The statements of every block.
    pub open spec fn statements(self) -> Seq<Seq<Statement>> {
        Seq::new(self.basic_blocks@.len(), |b: int| self.basic_blocks@[b].statements@)
    }

    /// The terminator of every block.
    pub open spec fn terminators(self) -> Seq<Terminator> {
        Seq::new(self.basic_blocks@.len(), |b: int| self.basic_blocks@[b].terminator)
    }

    pub open spec fn valid_block(self, block: int) -> bool {
        0 <= block < self.basic_blocks@.len()
    }

    /// What stands at a location of a valid block: a statement, or the terminator for any
    /// index at or past the end of the statements.
    pub open spec fn spec_stmt_at(self, location: Location) -> StatementOrTerminator {
        let data = self.basic_blocks@[location.block as int];
        if location.statement_index < data.statements@.len() {
            StatementOrTerminator::Statement(data.statements@[location.statement_index as int])
        } else {
            StatementOrTerminator::Terminator(data.terminator)
        }
    }

    pub fn stmt_at(&self, location: Location) -> (r: StatementOrTerminator)
        requires
            self.valid_block(location.block as int),
        ensures
            r == self.spec_stmt_at(location),
    {
        let data = &self.basic_blocks[location.block];
        if location.statement_index < data.statements.len() {
            StatementOrTerminator::Statement(data.statements[location.statement_index])
        } else {
            StatementOrTerminator::Terminator(data.terminator)
        }
    }

    /// Replaces the statement at `location`, leaving everything else as it was.
    pub fn set_statement(&mut self, location: Location, statement: Statement)
        requires
            old(self).valid_block(location.block as int),
            location.statement_index < old(self).basic_blocks@[location.block as int].statements@.len(),
        ensures
            final(self).statements() == old(self).statements().update(
                location.block as int,
                old(self).statements()[location.block as int].update(
                    location.statement_index as int,
                    statement,
                ),
            ),
            final(self).terminators() == old(self).terminators(),
            final(self).local_decls == old(self).local_decls,
            final(self).arg_count == old(self).arg_count,
            final(self).span == old(self).span,
    {
        let mut data = BasicBlockData {
            statements: Vec::new(),
            terminator: self.basic_blocks[location.block].terminator,
        };
        std::mem::swap(&mut data, &mut self.basic_blocks[location.block]);
        data.statements.set(location.statement_index, statement);
        std::mem::swap(&mut data, &mut self.basic_blocks[location.block]);
        assert(self.statements() =~= old(self).statements().update(
            location.block as int,
            old(self).statements()[location.block as int].update(
                location.statement_index as int,
                statement,
            ),
        ));
        assert(self.terminators() =~= old(self).terminators());
    }

    /// Inserts a statement at `index` of `block`, moving the later statements down.
    pub fn insert_statement(&mut self, block: usize, index: usize, statement: Statement)
        requires
            old(self).valid_block(block as int),
            index <= old(self).basic_blocks@[block as int].statements@.len(),
        ensures
            final(self).statements() == old(self).statements().update(
                block as int,
                old(self).statements()[block as int].insert(index as int, statement),
            ),
            final(self).terminators() == old(self).terminators(),
            final(self).local_decls == old(self).local_decls,
            final(self).arg_count == old(self).arg_count,
            final(self).span == old(self).span,
    {
        let mut data = BasicBlockData {
            statements: Vec::new(),
            terminator: self.basic_blocks[block].terminator,
        };
        std::mem::swap(&mut data, &mut self.basic_blocks[block]);
        data.statements.insert(index, statement);
        std::mem::swap(&mut data, &mut self.basic_blocks[block]);
        assert(self.statements() =~= old(self).statements().update(
            block as int,
            old(self).statements()[block as int].insert(index as int, statement),
        ));
        assert(self.terminators() =~= old(self).terminators());
    }
}

} // verus!
