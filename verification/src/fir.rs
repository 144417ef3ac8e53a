//! The flattened intermediate representation: packages of nodes that refer to each other by
//! identifier, and the mathematical view of a package over which the contracts are stated.

use vstd::prelude::*;

use crate::index_map::IndexMap;

verus! {

/// Identifies a package in a store.
#[derive(Clone, Copy, Debug, PartialEq, Eq, PartialOrd, Ord, Hash, Structural)]
pub struct PackageId(pub usize);

/// Identifies an item in its package.
#[derive(Clone, Copy, Debug, PartialEq, Eq, PartialOrd, Ord, Hash, Structural)]
pub struct LocalItemId(pub usize);

/// Identifies an item in a store.
#[derive(Clone, Copy, Debug, PartialEq, Eq, PartialOrd, Ord, Hash, Structural)]
pub struct StoreItemId {
    pub package: PackageId,
    pub item: LocalItemId,
}

/// Refers to an item from an expression.
#[derive(Clone, Copy, Debug, PartialEq, Eq, PartialOrd, Ord, Hash, Structural)]
pub struct ItemId {
    pub package: PackageId,
    pub item: LocalItemId,
}

/// Identifies a block in its package.
#[derive(Clone, Copy, Debug, PartialEq, Eq, PartialOrd, Ord, Hash, Structural)]
pub struct BlockId(pub usize);

/// Identifies an expression in its package.
#[derive(Clone, Copy, Debug, PartialEq, Eq, PartialOrd, Ord, Hash, Structural)]
pub struct ExprId(pub usize);

/// Identifies a pattern in its package.
#[derive(Clone, Copy, Debug, PartialEq, Eq, PartialOrd, Ord, Hash, Structural)]
pub struct PatId(pub usize);

/// Identifies a statement in its package.
#[derive(Clone, Copy, Debug, PartialEq, Eq, PartialOrd, Ord, Hash, Structural)]
pub struct StmtId(pub usize);

/// Identifies a local variable in its callable.
#[derive(Clone, Copy, Debug, PartialEq, Eq, PartialOrd, Ord, Hash, Structural)]
pub struct LocalVarId(pub usize);

/// A range of source text.
#[derive(Clone, Copy, Debug, PartialEq, Eq, Structural)]
pub struct Span {
    pub lo: u32,
    pub hi: u32,
}

/// The span of a node that comes from no source text.
pub open spec fn no_span() -> Span {
    Span { lo: 0, hi: 0 }
}

impl Default for Span {
    fn default() -> (r: Self)
        ensures
            r == no_span(),
    {
        Span { lo: 0, hi: 0 }
    }
}

/// A range of positions in an execution graph.
#[derive(Clone, Copy, Debug, PartialEq, Eq, Structural)]
pub struct ExecRange {
    pub start: usize,
    pub end: usize,
}

/// An empty execution graph range, for synthesized nodes that take no part in the execution
/// graph until it is rebuilt.
pub open spec fn no_exec_range() -> ExecRange {
    ExecRange { start: 0, end: 0 }
}

/// Makes the empty execution graph range.
pub fn empty_exec_range() -> (r: ExecRange)
    ensures
        r == no_exec_range(),
{
    ExecRange { start: 0, end: 0 }
}

/// A primitive type.
#[derive(Clone, Copy, Debug, PartialEq, Eq, Structural)]
pub enum Prim {
    BigInt,
    Bool,
    Double,
    Int,
    Pauli,
    Qubit,
    Range,
    RangeFrom,
    RangeFull,
    RangeTo,
    Result,
    String,
}

/// A type.
#[derive(Debug)]
pub enum Ty {
    Array(Box<Ty>),
    Prim(Prim),
    Tuple(Vec<Ty>),
    /// A type that no rewrite looks into, held by its text: a callable type, a type parameter,
    /// a user-defined type.
    Named(String),
}

/// The mathematical view of a type.
pub enum TyV {
    Array(Box<TyV>),
    Prim(Prim),
    Tuple(Seq<TyV>),
    Named(Seq<char>),
}

impl Ty {
    /// What the type is, as a mathematical value.
    pub open spec fn view(&self) -> TyV
        decreases self,
    {
        match self {
            Ty::Array(elem) => TyV::Array(Box::new((**elem).view())),
            Ty::Prim(prim) => TyV::Prim(*prim),
            Ty::Tuple(elems) => TyV::Tuple(
                Seq::new(
                    elems@.len(),
                    |i: int|
                        if 0 <= i < elems@.len() {
                            elems@[i].view()
                        } else {
                            arbitrary()
                        },
                ),
            ),
            Ty::Named(name) => TyV::Named(name@),
        }
    }
}

impl Clone for Ty {
    fn clone(&self) -> (r: Self)
        ensures
            r@ == self@,
        decreases self,
    {
        match self {
            Ty::Array(elem) => Ty::Array(Box::new((**elem).clone())),
            Ty::Prim(prim) => Ty::Prim(*prim),
            Ty::Tuple(elems) => {
                let mut copy: Vec<Ty> = Vec::new();
                let mut i: usize = 0;
                while i < elems.len()
                    invariant
                        i <= elems@.len(),
                        copy@.len() == i,
                        *self == Ty::Tuple(*elems),
                        forall|j: int| 0 <= j < i ==> (#[trigger] copy@[j])@ == elems@[j]@,
                    decreases elems@.len() - i,
                {
                    let elem: &Ty = &elems[i];
                    assert(decreases_to!(self => self->Tuple_0@[i as int]));
                    copy.push(elem.clone());
                    i = i + 1;
                }
                let r = Ty::Tuple(copy);
                assert(r@->Tuple_0 =~= self@->Tuple_0);
                r
            },
            Ty::Named(name) => Ty::Named(name.clone()),
        }
    }
}

/// A named local variable.
#[derive(Clone, Debug)]
pub struct Ident {
    pub id: LocalVarId,
    pub span: Span,
    pub name: String,
}

/// What a name refers to.
#[derive(Clone, Copy, Debug, PartialEq, Eq, Structural)]
pub enum Res {
    Invalid,
    Item(ItemId),
    Local(LocalVarId),
}

/// Whether a local variable may be assigned to.
#[derive(Clone, Copy, Debug, PartialEq, Eq, Structural)]
pub enum Mutability {
    Immutable,
    Mutable,
}

/// A transformation of an operation.
#[derive(Clone, Copy, Debug, PartialEq, Eq, Structural)]
pub enum Functor {
    Adj,
    Ctl,
}

/// The functors that an operation supports.
#[derive(Clone, Copy, Debug, PartialEq, Eq, Structural)]
pub enum FunctorSet {
    Empty,
    Adj,
    Ctl,
    CtlAdj,
}

/// An argument for a generic parameter.
#[derive(Clone, Debug)]
pub enum GenericArg {
    Ty(Ty),
    Functor(FunctorSet),
}

/// A binary operator.
#[derive(Clone, Copy, Debug, PartialEq, Eq, Structural)]
pub enum BinOp {
    Add,
    AndB,
    AndL,
    Div,
    Eq,
    Exp,
    Gt,
    Gte,
    Lt,
    Lte,
    Mod,
    Mul,
    Neq,
    OrB,
    OrL,
    Shl,
    Shr,
    Sub,
    XorB,
}

/// A unary operator.
#[derive(Clone, Copy, Debug, PartialEq, Eq, Structural)]
pub enum UnOp {
    Functor(Functor),
    Neg,
    NotB,
    NotL,
    Pos,
    Unwrap,
}

/// A Pauli operator.
#[derive(Clone, Copy, Debug, PartialEq, Eq, Structural)]
pub enum Pauli {
    I,
    X,
    Y,
    Z,
}

/// A measurement result.
#[derive(Clone, Copy, Debug, PartialEq, Eq, Structural)]
pub enum Measured {
    Zero,
    One,
}

/// A literal. Numbers that no machine integer holds are kept as their text.
#[derive(Clone, Debug)]
pub enum Lit {
    BigInt(String),
    Bool(bool),
    Double(String),
    Imaginary(String),
    Int(i64),
    Pauli(Pauli),
    Result(Measured),
}

/// A positional path into a nested tuple.
#[derive(Clone, Debug)]
pub struct FieldPath {
    pub indices: Vec<usize>,
}

/// A field built into a primitive type.
#[derive(Clone, Copy, Debug, PartialEq, Eq, Structural)]
pub enum PrimField {
    Start,
    Step,
    End,
}

/// A field of a value.
#[derive(Clone, Debug)]
pub enum Field {
    Invalid,
    Path(FieldPath),
    Prim(PrimField),
}

/// The value given to one field of a structure.
#[derive(Clone, Debug)]
pub struct FieldAssign {
    pub field: Field,
    pub value: ExprId,
}

/// A part of an interpolated string.
#[derive(Clone, Debug)]
pub enum StringComponent {
    Expr(ExprId),
    Lit(String),
}

/// What an expression is.
#[derive(Clone, Debug)]
pub enum ExprKind {
    Array(Vec<ExprId>),
    ArrayLit(Vec<ExprId>),
    ArrayRepeat(ExprId, ExprId),
    Assign(ExprId, ExprId),
    AssignField(ExprId, Field, ExprId),
    AssignIndex(ExprId, ExprId, ExprId),
    AssignOp(BinOp, ExprId, ExprId),
    BinOp(BinOp, ExprId, ExprId),
    Block(BlockId),
    Call(ExprId, ExprId),
    Closure(Vec<LocalVarId>, LocalItemId),
    Fail(ExprId),
    Field(ExprId, Field),
    Hole,
    If(ExprId, ExprId, Option<ExprId>),
    Index(ExprId, ExprId),
    Lit(Lit),
    Range(Option<ExprId>, Option<ExprId>, Option<ExprId>),
    Return(ExprId),
    String(Vec<StringComponent>),
    Struct(Res, Option<ExprId>, Vec<FieldAssign>),
    Tuple(Vec<ExprId>),
    UnOp(UnOp, ExprId),
    UpdateField(ExprId, Field, ExprId),
    UpdateIndex(ExprId, ExprId, ExprId),
    Var(Res, Vec<GenericArg>),
    While(ExprId, BlockId),
}

/// An expression.
#[derive(Clone, Debug)]
pub struct Expr {
    pub id: ExprId,
    pub span: Span,
    pub ty: Ty,
    pub kind: ExprKind,
    pub exec_graph_range: ExecRange,
}

/// What a pattern is.
#[derive(Clone, Debug)]
pub enum PatKind {
    Bind(Ident),
    Discard,
    Tuple(Vec<PatId>),
}

/// A pattern.
#[derive(Clone, Debug)]
pub struct Pat {
    pub id: PatId,
    pub span: Span,
    pub ty: Ty,
    pub kind: PatKind,
}

/// What a statement is.
#[derive(Clone, Copy, Debug, PartialEq, Eq, Structural)]
pub enum StmtKind {
    Expr(ExprId),
    Item(LocalItemId),
    Local(Mutability, PatId, ExprId),
    Semi(ExprId),
}

/// A statement.
#[derive(Clone, Copy, Debug, PartialEq, Eq, Structural)]
pub struct Stmt {
    pub id: StmtId,
    pub span: Span,
    pub kind: StmtKind,
    pub exec_graph_range: ExecRange,
}

/// A sequence of statements.
#[derive(Clone, Debug)]
pub struct Block {
    pub id: BlockId,
    pub span: Span,
    pub ty: Ty,
    pub stmts: Vec<StmtId>,
}

/// A specialization of a callable.
#[derive(Clone, Copy, Debug, PartialEq, Eq, Structural)]
pub struct SpecDecl {
    pub block: BlockId,
    pub input: Option<PatId>,
}

/// The specializations of a callable.
#[derive(Clone, Copy, Debug, PartialEq, Eq, Structural)]
pub struct Specializations {
    pub body: SpecDecl,
    pub adj: Option<SpecDecl>,
    pub ctl: Option<SpecDecl>,
    pub ctl_adj: Option<SpecDecl>,
}

/// How a callable is implemented.
#[derive(Clone, Copy, Debug, PartialEq, Eq, Structural)]
pub enum CallableImpl {
    Intrinsic,
    Spec(Specializations),
    SimulatableIntrinsic(SpecDecl),
}

/// A callable.
#[derive(Clone, Debug)]
pub struct CallableDecl {
    pub name: Ident,
    pub input: PatId,
    pub output: Ty,
    pub implementation: CallableImpl,
}

/// What an item is.
#[derive(Clone, Debug)]
pub enum ItemKind {
    Callable(Box<CallableDecl>),
    Export(Ident, Res),
    Namespace(String, Vec<LocalItemId>),
    Ty(Ident),
}

/// An item.
#[derive(Clone, Debug)]
pub struct Item {
    pub id: LocalItemId,
    pub span: Span,
    pub kind: ItemKind,
}

/// A package: its items and the nodes that they are made of.
#[derive(Clone, Debug)]
pub struct Package {
    pub items: IndexMap<Item>,
    pub entry: Option<ExprId>,
    pub blocks: IndexMap<Block>,
    pub exprs: IndexMap<Expr>,
    pub pats: IndexMap<Pat>,
    pub stmts: IndexMap<Stmt>,
}

/// The packages of a program.
#[derive(Clone, Debug)]
pub struct PackageStore {
    pub packages: IndexMap<Package>,
}

/// The mathematical view of what an expression is: a variable and a positional projection by
/// what they hold, anything else as it stands.
pub enum ExprKindV {
    Var(Res, Seq<GenericArg>),
    Field(ExprId, Seq<usize>),
    Other(ExprKind),
}

/// The mathematical view of an expression.
pub struct ExprV {
    pub id: ExprId,
    pub span: Span,
    pub ty: TyV,
    pub kind: ExprKindV,
    pub exec_graph_range: ExecRange,
}

/// The mathematical view of a block.
pub struct BlockV {
    pub id: BlockId,
    pub span: Span,
    pub ty: TyV,
    pub stmts: Seq<StmtId>,
}

/// The mathematical view of a package.
pub struct PackageV {
    pub items: Map<usize, Item>,
    pub entry: Option<ExprId>,
    pub blocks: Map<usize, BlockV>,
    pub exprs: Map<usize, ExprV>,
    pub pats: Map<usize, Pat>,
    pub stmts: Map<usize, Stmt>,
}

impl ExprKind {
    /// What the expression is, as a mathematical value.
    pub open spec fn view(&self) -> ExprKindV {
        match *self {
            ExprKind::Var(res, args) => ExprKindV::Var(res, args@),
            ExprKind::Field(base, Field::Path(path)) => ExprKindV::Field(base, path.indices@),
            kind => ExprKindV::Other(kind),
        }
    }
}

impl Expr {
    /// The expression as a mathematical value.
    pub open spec fn view(&self) -> ExprV {
        ExprV {
            id: self.id,
            span: self.span,
            ty: self.ty@,
            kind: self.kind@,
            exec_graph_range: self.exec_graph_range,
        }
    }
}

impl Block {
    /// The block as a mathematical value.
    pub open spec fn view(&self) -> BlockV {
        BlockV { id: self.id, span: self.span, ty: self.ty@, stmts: self.stmts@ }
    }
}

impl Package {
    /// The package as a mathematical value.
    pub open spec fn view(&self) -> PackageV {
        PackageV {
            items: self.items@,
            entry: self.entry,
            blocks: self.blocks@.map_values(|b: Block| b@),
            exprs: self.exprs@.map_values(|e: Expr| e@),
            pats: self.pats@,
            stmts: self.stmts@,
        }
    }

    /// A package with nothing in it.
    pub fn new() -> (r: Self)
        ensures
            r@ == (PackageV {
                items: Map::empty(),
                entry: None,
                blocks: Map::empty(),
                exprs: Map::empty(),
                pats: Map::empty(),
                stmts: Map::empty(),
            }),
    {
        let r = Package {
            items: IndexMap::new(),
            entry: None,
            blocks: IndexMap::new(),
            exprs: IndexMap::new(),
            pats: IndexMap::new(),
            stmts: IndexMap::new(),
        };
        assert(r@.blocks =~= Map::empty());
        assert(r@.exprs =~= Map::empty());
        r
    }

    /// The item with the given identifier.
    pub fn get_item(&self, id: LocalItemId) -> (r: &Item)
        requires
            self@.items.contains_key(id.0),
        ensures
            *r == self@.items[id.0],
    {
        self.items.get(id.0).unwrap()
    }

    /// The block with the given identifier.
    pub fn get_block(&self, id: BlockId) -> (r: &Block)
        requires
            self@.blocks.contains_key(id.0),
        ensures
            r@ == self@.blocks[id.0],
            *r == self.blocks@[id.0],
    {
        self.blocks.get(id.0).unwrap()
    }

    /// The expression with the given identifier.
    pub fn get_expr(&self, id: ExprId) -> (r: &Expr)
        requires
            self@.exprs.contains_key(id.0),
        ensures
            r@ == self@.exprs[id.0],
            *r == self.exprs@[id.0],
    {
        self.exprs.get(id.0).unwrap()
    }

    /// The pattern with the given identifier.
    pub fn get_pat(&self, id: PatId) -> (r: &Pat)
        requires
            self@.pats.contains_key(id.0),
        ensures
            *r == self@.pats[id.0],
    {
        self.pats.get(id.0).unwrap()
    }

    /// The statement with the given identifier.
    pub fn get_stmt(&self, id: StmtId) -> (r: &Stmt)
        requires
            self@.stmts.contains_key(id.0),
        ensures
            *r == self@.stmts[id.0],
    {
        self.stmts.get(id.0).unwrap()
    }
}

impl PackageStore {
    /// The packages as mathematical values.
    pub open spec fn view(&self) -> Map<usize, PackageV> {
        self.packages@.map_values(|p: Package| p@)
    }

    /// A store without packages.
    pub fn new() -> (r: Self)
        ensures
            r@ == Map::<usize, PackageV>::empty(),
    {
        let r = PackageStore { packages: IndexMap::new() };
        assert(r@ =~= Map::<usize, PackageV>::empty());
        r
    }

    /// Puts a package under the given identifier.
    pub fn insert(&mut self, id: PackageId, package: Package)
        requires
            id.0 < usize::MAX,
        ensures
            final(self)@ == old(self)@.insert(id.0, package@),
    {
        self.packages.insert(id.0, package);
        assert(self@ =~= old(self)@.insert(id.0, package@));
    }

    /// The package with the given identifier.
    pub fn get(&self, id: PackageId) -> (r: &Package)
        requires
            self@.contains_key(id.0),
        ensures
            r@ == self@[id.0],
    {
        self.packages.get(id.0).unwrap()
    }

    /// Mutable access to the package with the given identifier.
    pub fn get_mut(&mut self, id: PackageId) -> (r: &mut Package)
        requires
            old(self)@.contains_key(id.0),
        ensures
            (*r)@ == old(self)@[id.0],
            final(self)@ == old(self)@.insert(id.0, (*final(r))@),
    {
        let ghost before = self.packages@;
        let r = self.packages.get_mut(id.0);
        proof {
            let after = before.insert(id.0, *final(r));
            assert(after.map_values(|p: Package| p@) =~= before.map_values(
                |p: Package| p@,
            ).insert(id.0, (*final(r))@));
        }
        r
    }
}

} // verus!
