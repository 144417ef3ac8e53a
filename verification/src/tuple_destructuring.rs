//! Tuple-destructuring normalization: rewrites body-local tuple-destructuring `let`s into
//! positional field projections, so that `let (a, b) = src;` becomes `let a = src::0;` and
//! `let b = src::1;`.

use vstd::prelude::*;

use crate::assigner::{is_fresh, Assigner};
use crate::fir::{
    empty_exec_range, no_exec_range, no_span, BlockId, BlockV, CallableDecl, Expr, ExprId, ExprKind,
    ExprKindV, ExprV, Field, FieldPath, ItemKind, LocalItemId, LocalVarId, Mutability, Package,
    PackageId, PackageStore, PackageV, Pat, PatId, PatKind, Res, Span, Stmt, StmtId, StmtKind,
    StoreItemId, Ty, TyV,
};
use crate::idempotence::lemma_normalization_is_idempotent;
use crate::index_map::{keys_in_order, lemma_keys_below};
use crate::normalization_laws::lemma_destructures;
use crate::preservation::lemma_normalization_keeps;
use crate::reachability::{
    collect_reachable_from_entry, item_ok, reach_ok, reachable_set, try_collect_reachable,
};
use crate::walk::{body_nodes, callable_nodes, lemma_pat_ok_deeper, lemma_walk_all_ok, pat_ok, Node};

verus! {

/// A variable that a destructuring pattern binds: its pattern, where its value stands in the
/// source tuple, and its type.
pub struct LeafV {
    pub pat: PatId,
    pub path: Seq<usize>,
    pub ty: TyV,
}

/// The variables that a pattern binds, from left to right; `path` leads to the pattern.
pub open spec fn leaves(
    pats: Map<usize, Pat>,
    id: PatId,
    path: Seq<usize>,
    depth: nat,
) -> Seq<LeafV>
    decreases depth, 0nat,
{
    if depth == 0 {
        seq![]
    } else {
        match pats[id.0].kind {
            PatKind::Discard => seq![],
            PatKind::Bind(_) => seq![LeafV { pat: id, path, ty: pats[id.0].ty@ }],
            PatKind::Tuple(subs) => leaves_of(pats, subs@, path, (depth - 1) as nat),
        }
    }
}

/// The variables that the elements of a tuple pattern bind, from left to right; `path` leads to
/// the tuple.
pub open spec fn leaves_of(
    pats: Map<usize, Pat>,
    subs: Seq<PatId>,
    path: Seq<usize>,
    depth: nat,
) -> Seq<LeafV>
    decreases depth, subs.len(),
{
    if subs.len() == 0 {
        seq![]
    } else {
        leaves_of(pats, subs.drop_last(), path, depth) + leaves(
            pats,
            subs.last(),
            path.push((subs.len() - 1) as usize),
            depth,
        )
    }
}

/// The mathematical view of a pending rewrite.
pub struct RewriteV {
    pub block: BlockId,
    pub stmt: StmtId,
    pub mutability: Mutability,
    pub source: LocalVarId,
    pub ty: TyV,
    pub elems: Seq<PatId>,
}

/// The variables that the pattern of a rewrite binds.
pub open spec fn rewrite_leaves(p: PackageV, r: RewriteV) -> Seq<LeafV> {
    leaves_of(p.pats, r.elems, seq![], p.pat_depth())
}

/// A synthesized read of a local variable.
pub open spec fn var_expr(id: ExprId, local: LocalVarId, ty: TyV) -> ExprV {
    ExprV {
        id,
        span: no_span(),
        ty,
        kind: ExprKindV::Var(Res::Local(local), seq![]),
        exec_graph_range: no_exec_range(),
    }
}

/// A synthesized projection out of `base` along `path`.
pub open spec fn field_expr(id: ExprId, base: ExprId, path: Seq<usize>, ty: TyV) -> ExprV {
    ExprV {
        id,
        span: no_span(),
        ty,
        kind: ExprKindV::Field(base, path),
        exec_graph_range: no_exec_range(),
    }
}

/// The expressions with a read of the whole source and a projection out of it added, under the
/// next two identifiers.
pub open spec fn with_projection(
    exprs: Map<usize, ExprV>,
    next: nat,
    source: LocalVarId,
    tuple_ty: TyV,
    leaf_ty: TyV,
    path: Seq<usize>,
) -> Map<usize, ExprV> {
    let base = ExprId(next as usize);
    let field = ExprId((next + 1) as usize);
    exprs.insert(base.0, var_expr(base, source, tuple_ty)).insert(
        field.0,
        field_expr(field, base, path, leaf_ty),
    )
}

/// The expressions with one projection added for each leaf.
pub open spec fn with_projections(
    exprs: Map<usize, ExprV>,
    next: nat,
    r: RewriteV,
    ls: Seq<LeafV>,
) -> Map<usize, ExprV>
    decreases ls.len(),
{
    if ls.len() == 0 {
        exprs
    } else {
        with_projection(
            with_projections(exprs, next, r, ls.drop_last()),
            next + 2 * (ls.len() - 1) as nat,
            r.source,
            r.ty,
            ls.last().ty,
            ls.last().path,
        )
    }
}

/// The projection for the leaf at position `j`.
pub open spec fn projection_id(next: nat, j: int) -> ExprId {
    ExprId((next + 2 * j + 1) as usize)
}

/// The binding of the leaf at position `j`.
pub open spec fn leaf_let(a: Assigner, r: RewriteV, ls: Seq<LeafV>, j: int) -> StmtKind {
    StmtKind::Local(r.mutability, ls[j].pat, projection_id(a.next_expr as nat, j))
}

/// A synthesized statement.
pub open spec fn synthesized_stmt(id: StmtId, kind: StmtKind) -> Stmt {
    Stmt { id, span: no_span(), kind, exec_graph_range: no_exec_range() }
}

/// The statements with bindings of the leaves at positions `1` to `n - 1` added.
pub open spec fn with_lets(
    stmts: Map<usize, Stmt>,
    a: Assigner,
    r: RewriteV,
    ls: Seq<LeafV>,
    n: nat,
) -> Map<usize, Stmt>
    decreases n,
{
    if n <= 1 {
        stmts
    } else {
        let id = StmtId((a.next_stmt + n - 2) as usize);
        with_lets(stmts, a, r, ls, (n - 1) as nat).insert(
            id.0,
            synthesized_stmt(id, leaf_let(a, r, ls, n - 1)),
        )
    }
}

/// The identifiers of the first `n` statements handed out next.
pub open spec fn new_stmt_ids(a: Assigner, n: nat) -> Seq<StmtId> {
    Seq::new(n, |j: int| StmtId((a.next_stmt + j) as usize))
}

/// The statements with `new` put right after the first occurrence of `at`.
pub open spec fn spliced(stmts: Seq<StmtId>, at: StmtId, new: Seq<StmtId>) -> Seq<StmtId> {
    match stmts.index_of_first(at) {
        Some(pos) => stmts.take(pos + 1) + new + stmts.skip(pos + 1),
        None => stmts,
    }
}

/// The statements without the first occurrence of `at`.
pub open spec fn removed(stmts: Seq<StmtId>, at: StmtId) -> Seq<StmtId> {
    match stmts.index_of_first(at) {
        Some(pos) => stmts.remove(pos),
        None => stmts,
    }
}

/// The package after a rewrite. Each leaf is bound by one projection: the first in the original
/// statement, the others in new statements right after it. A pattern without leaves loses its
/// statement.
pub open spec fn rewritten(p: PackageV, a: Assigner, r: RewriteV) -> PackageV {
    let ls = rewrite_leaves(p, r);
    let block = p.blocks[r.block.0];
    if ls.len() == 0 {
        PackageV {
            blocks: p.blocks.insert(
                r.block.0,
                BlockV { stmts: removed(block.stmts, r.stmt), ..block },
            ),
            ..p
        }
    } else {
        PackageV {
            exprs: with_projections(p.exprs, a.next_expr as nat, r, ls),
            stmts: with_lets(
                p.stmts.insert(
                    r.stmt.0,
                    Stmt { kind: leaf_let(a, r, ls, 0), ..p.stmts[r.stmt.0] },
                ),
                a,
                r,
                ls,
                ls.len(),
            ),
            blocks: p.blocks.insert(
                r.block.0,
                BlockV {
                    stmts: spliced(
                        block.stmts,
                        r.stmt,
                        new_stmt_ids(a, (ls.len() - 1) as nat),
                    ),
                    ..block
                },
            ),
            ..p
        }
    }
}

/// The assigner after a rewrite that binds `n` leaves.
pub open spec fn assigner_after(a: Assigner, n: nat) -> Assigner {
    Assigner {
        next_expr: (a.next_expr + 2 * n) as usize,
        next_stmt: (a.next_stmt + if n == 0 {
            0
        } else {
            n - 1
        }) as usize,
    }
}

/// Whether there are identifiers left for `n` leaves.
pub open spec fn has_room(a: Assigner, n: nat) -> bool {
    &&& a.next_expr + 2 * n < usize::MAX
    &&& a.next_stmt + n < usize::MAX
}

/// The rewrite of a statement in block `block`, where it takes a local variable apart: a `let`
/// with a tuple pattern whose right-hand side reads a local variable, of a tuple type with as
/// many elements as the pattern.
pub open spec fn stmt_rewrite(p: PackageV, block: BlockId, stmt: StmtId) -> Option<RewriteV> {
    match p.stmts[stmt.0].kind {
        StmtKind::Local(mutability, pat, rhs) => match (
            p.pats[pat.0].kind,
            p.exprs[rhs.0].kind,
            p.exprs[rhs.0].ty,
        ) {
            (
                PatKind::Tuple(elems),
                ExprKindV::Var(Res::Local(source), _),
                TyV::Tuple(tys),
            ) if elems@.len() == tys.len() => Some(
                RewriteV {
                    block,
                    stmt,
                    mutability,
                    source,
                    ty: p.exprs[rhs.0].ty,
                    elems: elems@,
                },
            ),
            _ => None,
        },
        _ => None,
    }
}

/// The rewrites of the given statements of a block, in order.
pub open spec fn stmts_rewrites(p: PackageV, block: BlockId, stmts: Seq<StmtId>) -> Seq<RewriteV>
    decreases stmts.len(),
{
    if stmts.len() == 0 {
        seq![]
    } else {
        match stmt_rewrite(p, block, stmts.last()) {
            Some(r) => stmts_rewrites(p, block, stmts.drop_last()).push(r),
            None => stmts_rewrites(p, block, stmts.drop_last()),
        }
    }
}

/// The rewrites in the blocks among the given nodes, in order.
pub open spec fn nodes_rewrites(p: PackageV, nodes: Seq<Node>) -> Seq<RewriteV>
    decreases nodes.len(),
{
    if nodes.len() == 0 {
        seq![]
    } else {
        match nodes.last() {
            Node::Block(b) => nodes_rewrites(p, nodes.drop_last()) + stmts_rewrites(
                p,
                b,
                p.blocks[b.0].stmts,
            ),
            _ => nodes_rewrites(p, nodes.drop_last()),
        }
    }
}

/// The rewrites in those of the given items that are reachable callables, in order.
pub open spec fn items_rewrites(
    p: PackageV,
    package: PackageId,
    reachable: Set<StoreItemId>,
    items: Seq<usize>,
) -> Seq<RewriteV>
    decreases items.len(),
{
    if items.len() == 0 {
        seq![]
    } else {
        let before = items_rewrites(p, package, reachable, items.drop_last());
        let id = StoreItemId { package, item: LocalItemId(items.last()) };
        match p.items[items.last()].kind {
            ItemKind::Callable(decl) if reachable.contains(id) => before + nodes_rewrites(
                p,
                p.callable_walk(decl.implementation),
            ),
            _ => before,
        }
    }
}

/// Every rewrite in the callables of the package that its entry expression reaches, by item, then
/// by block, then by statement.
pub open spec fn package_rewrites(
    store: Map<usize, PackageV>,
    package: PackageId,
) -> Seq<RewriteV> {
    let p = store[package.0];
    items_rewrites(
        p,
        package,
        reachable_set(store, package, Seq::empty()),
        keys_in_order(p.items.dom()),
    )
}

/// How many variables the patterns of the rewrites bind.
pub open spec fn leaf_count(p: PackageV, rs: Seq<RewriteV>) -> nat
    decreases rs.len(),
{
    if rs.len() == 0 {
        0
    } else {
        leaf_count(p, rs.drop_last()) + rewrite_leaves(p, rs.last()).len()
    }
}

/// The package and the assigner after the rewrites, one after the other.
pub open spec fn normalized(p: PackageV, a: Assigner, rs: Seq<RewriteV>) -> (PackageV, Assigner)
    decreases rs.len(),
{
    if rs.len() == 0 {
        (p, a)
    } else {
        let (q, b) = normalized(p, a, rs.drop_last());
        (rewritten(q, b, rs.last()), assigner_after(b, rewrite_leaves(q, rs.last()).len()))
    }
}

/// A pending rewrite of a tuple-destructuring `let` into positional field projections.
pub struct DestructureRewrite {
    /// The block containing the destructuring statement.
    pub block_id: BlockId,
    /// The destructuring `let` statement to rewrite in place.
    pub stmt_id: StmtId,
    /// Mutability of the original `let`.
    pub mutability: Mutability,
    /// The source local read as a whole value on the right-hand side.
    pub source_local: LocalVarId,
    /// The full tuple type of the source local.
    pub tuple_ty: Ty,
    /// The element sub-patterns of the destructuring tuple pattern.
    pub element_pat_ids: Vec<PatId>,
}

impl DestructureRewrite {
    /// The rewrite as a mathematical value.
    pub open spec fn view(&self) -> RewriteV {
        RewriteV {
            block: self.block_id,
            stmt: self.stmt_id,
            mutability: self.mutability,
            source: self.source_local,
            ty: self.tuple_ty@,
            elems: self.element_pat_ids@,
        }
    }
}

/// A variable that a destructuring pattern binds.
pub struct Leaf {
    /// The pattern that binds it.
    pub pat_id: PatId,
    /// Where its value stands in the source tuple.
    pub indices: Vec<usize>,
    /// Its type.
    pub ty: Ty,
}

impl Leaf {
    /// The leaf as a mathematical value.
    pub open spec fn view(&self) -> LeafV {
        LeafV { pat: self.pat_id, path: self.indices@, ty: self.ty@ }
    }
}

/// The leaves as mathematical values.
pub open spec fn leaf_views(ls: Seq<Leaf>) -> Seq<LeafV> {
    ls.map_values(|l: Leaf| l@)
}

fn copy_all<T: Copy>(items: &Vec<T>) -> (r: Vec<T>)
    ensures
        r@ == items@,
{
    let mut r: Vec<T> = Vec::new();
    let mut i: usize = 0;
    while i < items.len()
        invariant
            i <= items@.len(),
            r@ == items@.take(i as int),
        decreases items@.len() - i,
    {
        r.push(items[i]);
        assert(items@.take(i + 1) =~= items@.take(i as int).push(items@[i as int]));
        i = i + 1;
    }
    assert(items@.take(i as int) =~= items@);
    r
}

/// Adds the leaves of a tuple pattern's elements to `found`; `indices` leads to the tuple and is
/// left as it was.
fn collect_element_leaves(
    package: &Package,
    subs: &Vec<PatId>,
    Ghost(depth): Ghost<nat>,
    indices: &mut Vec<usize>,
    found: &mut Vec<Leaf>,
)
    requires
        forall|i: int| 0 <= i < subs@.len() ==> pat_ok(package@.pats, #[trigger] subs@[i], depth),
    ensures
        final(indices)@ == old(indices)@,
        leaf_views(final(found)@) == leaf_views(old(found)@) + leaves_of(
            package@.pats,
            subs@,
            old(indices)@,
            depth,
        ),
    decreases depth, subs@.len() + 1,
{
    let ghost path = indices@;
    let mut i: usize = 0;
    while i < subs.len()
        invariant
            i <= subs@.len(),
            path == old(indices)@,
            indices@ == path,
            forall|i: int|
                0 <= i < subs@.len() ==> pat_ok(package@.pats, #[trigger] subs@[i], depth),
            leaf_views(found@) == leaf_views(old(found)@) + leaves_of(
                package@.pats,
                subs@.take(i as int),
                path,
                depth,
            ),
        decreases subs@.len() - i,
    {
        assert(subs@.take(i + 1).drop_last() =~= subs@.take(i as int));
        indices.push(i);
        collect_leaf_projections(package, subs[i], Ghost(depth), indices, found);
        indices.pop();
        assert(indices@ =~= path);
        i = i + 1;
    }
    assert(subs@.take(i as int) =~= subs@);
}

/// Adds the leaves of a destructuring element to `found`; `indices` leads to the element and is
/// left as it was.
fn collect_leaf_projections(
    package: &Package,
    pat_id: PatId,
    Ghost(depth): Ghost<nat>,
    indices: &mut Vec<usize>,
    found: &mut Vec<Leaf>,
)
    requires
        pat_ok(package@.pats, pat_id, depth),
    ensures
        final(indices)@ == old(indices)@,
        leaf_views(final(found)@) == leaf_views(old(found)@) + leaves(
            package@.pats,
            pat_id,
            old(indices)@,
            depth,
        ),
    decreases depth, 0nat,
{
    let pat = package.get_pat(pat_id);
    match &pat.kind {
        PatKind::Discard => {},
        PatKind::Bind(_) => {
            let leaf = Leaf { pat_id, indices: copy_all(indices), ty: pat.ty.clone() };
            found.push(leaf);
            assert(leaf_views(found@) =~= leaf_views(old(found)@).push(leaf@));
        },
        PatKind::Tuple(subs) => {
            collect_element_leaves(package, subs, Ghost((depth - 1) as nat), indices, found);
        },
    }
}

/// Adds a read of the local variable under a fresh identifier.
fn alloc_local_var_expr(
    package: &mut Package,
    assigner: &mut Assigner,
    local: LocalVarId,
    ty: Ty,
    span: Span,
) -> (r: ExprId)
    requires
        old(assigner).next_expr < usize::MAX,
    ensures
        r == ExprId(old(assigner).next_expr),
        final(package)@ == (PackageV {
            exprs: old(package)@.exprs.insert(
                old(assigner).next_expr,
                ExprV { span, ..var_expr(ExprId(old(assigner).next_expr), local, ty@) },
            ),
            ..old(package)@
        }),
        *final(assigner) == (Assigner {
            next_expr: (old(assigner).next_expr + 1) as usize,
            ..*old(assigner)
        }),
{
    let id = assigner.next_expr();
    let expr = Expr {
        id,
        span,
        ty,
        kind: ExprKind::Var(Res::Local(local), Vec::new()),
        exec_graph_range: empty_exec_range(),
    };
    package.exprs.insert(id.0, expr);
    proof {
        assert(expr@.kind->Var_1 =~= seq![]);
        assert(package@.exprs =~= old(package)@.exprs.insert(id.0, expr@));
    }
    id
}

/// Adds a projection out of the local variable along `indices`, over a fresh read of the whole
/// variable.
fn create_local_projection_path(
    package: &mut Package,
    assigner: &mut Assigner,
    source_local: LocalVarId,
    tuple_ty: &Ty,
    leaf_ty: &Ty,
    indices: &Vec<usize>,
) -> (r: ExprId)
    requires
        old(assigner).next_expr + 1 < usize::MAX,
    ensures
        r == projection_id(old(assigner).next_expr as nat, 0),
        final(package)@ == (PackageV {
            exprs: with_projection(
                old(package)@.exprs,
                old(assigner).next_expr as nat,
                source_local,
                tuple_ty@,
                leaf_ty@,
                indices@,
            ),
            ..old(package)@
        }),
        *final(assigner) == (Assigner {
            next_expr: (old(assigner).next_expr + 2) as usize,
            ..*old(assigner)
        }),
{
    let base_id = alloc_local_var_expr(
        package,
        assigner,
        source_local,
        tuple_ty.clone(),
        Span::default(),
    );
    let ghost between = package@;
    let field_expr_id = assigner.next_expr();
    let expr = Expr {
        id: field_expr_id,
        span: Span::default(),
        ty: leaf_ty.clone(),
        kind: ExprKind::Field(base_id, Field::Path(FieldPath { indices: copy_all(indices) })),
        exec_graph_range: empty_exec_range(),
    };
    package.exprs.insert(field_expr_id.0, expr);
    assert(package@.exprs =~= between.exprs.insert(field_expr_id.0, expr@));
    field_expr_id
}

/// Where the statement first occurs.
fn position(stmts: &Vec<StmtId>, at: StmtId) -> (r: Option<usize>)
    ensures
        match r {
            Some(pos) => stmts@.index_of_first(at) == Some(pos as int),
            None => stmts@.index_of_first(at) == None::<int>,
        },
{
    let mut i: usize = 0;
    while i < stmts.len()
        invariant
            i <= stmts@.len(),
            forall|j: int| 0 <= j < i ==> stmts@[j] != at,
        decreases stmts@.len() - i,
    {
        if stmts[i] == at {
            proof {
                stmts@.index_of_first_ensures(at);
                assert(stmts@.contains(at));
            }
            return Some(i);
        }
        i = i + 1;
    }
    proof {
        stmts@.index_of_first_ensures(at);
    }
    None
}

/// Puts `new_ids` right after the first occurrence of `at`.
fn splice_after(stmts: &mut Vec<StmtId>, at: StmtId, new_ids: &Vec<StmtId>)
    ensures
        final(stmts)@ == spliced(old(stmts)@, at, new_ids@),
{
    if let Some(pos) = position(stmts, at) {
        proof {
            stmts@.index_of_first_ensures(at);
        }
        let ghost before = stmts@;
        let mut offset: usize = 0;
        while offset < new_ids.len()
            invariant
                offset <= new_ids@.len(),
                pos < before.len(),
                before == old(stmts)@,
                stmts@ == before.take(pos + 1) + new_ids@.take(offset as int) + before.skip(
                    pos + 1,
                ),
            decreases new_ids@.len() - offset,
        {
            assert(pos + 1 + offset <= stmts.len());
            stmts.insert(pos + 1 + offset, new_ids[offset]);
            assert(stmts@ =~= before.take(pos + 1) + new_ids@.take(offset + 1) + before.skip(
                pos + 1,
            ));
            offset = offset + 1;
        }
        assert(new_ids@.take(offset as int) =~= new_ids@);
        assert(stmts@ =~= spliced(old(stmts)@, at, new_ids@));
    }
}

/// Adds one projection for each leaf.
fn create_projections(
    package: &mut Package,
    assigner: &mut Assigner,
    rewrite: &DestructureRewrite,
    found: &Vec<Leaf>,
) -> (r: Vec<ExprId>)
    requires
        old(assigner).next_expr + 2 * found@.len() < usize::MAX,
    ensures
        r@ == Seq::new(
            found@.len(),
            |j: int| projection_id(old(assigner).next_expr as nat, j),
        ),
        final(package)@ == (PackageV {
            exprs: with_projections(
                old(package)@.exprs,
                old(assigner).next_expr as nat,
                rewrite@,
                leaf_views(found@),
            ),
            ..old(package)@
        }),
        *final(assigner) == (Assigner {
            next_expr: (old(assigner).next_expr + 2 * found@.len()) as usize,
            ..*old(assigner)
        }),
{
    let ghost p0 = package@;
    let ghost a0 = *assigner;
    let ghost ls = leaf_views(found@);
    let mut projections: Vec<ExprId> = Vec::new();
    let mut j: usize = 0;
    while j < found.len()
        invariant
            j <= found@.len(),
            ls == leaf_views(found@),
            a0.next_expr + 2 * found@.len() < usize::MAX,
            projections@ == Seq::new(j as nat, |k: int| projection_id(a0.next_expr as nat, k)),
            package@ == (PackageV {
                exprs: with_projections(
                    p0.exprs,
                    a0.next_expr as nat,
                    rewrite@,
                    ls.take(j as int),
                ),
                ..p0
            }),
            *assigner == (Assigner { next_expr: (a0.next_expr + 2 * j) as usize, ..a0 }),
        decreases found@.len() - j,
    {
        let leaf: &Leaf = &found[j];
        let id = create_local_projection_path(
            package,
            assigner,
            rewrite.source_local,
            &rewrite.tuple_ty,
            &leaf.ty,
            &leaf.indices,
        );
        projections.push(id);
        proof {
            assert(ls.take(j + 1).drop_last() =~= ls.take(j as int));
            assert(ls.take(j + 1).last() == leaf@);
            assert(projections@ =~= Seq::new(
                (j + 1) as nat,
                |k: int| projection_id(a0.next_expr as nat, k),
            ));
        }
        j = j + 1;
    }
    assert(ls.take(j as int) =~= ls);
    projections
}

/// Makes the original statement bind the first leaf, and adds a statement for each other leaf.
fn bind_leaves(
    package: &mut Package,
    assigner: &mut Assigner,
    rewrite: &DestructureRewrite,
    found: &Vec<Leaf>,
    projections: &Vec<ExprId>,
    Ghost(a): Ghost<Assigner>,
) -> (r: Vec<StmtId>)
    requires
        found@.len() > 0,
        projections@ == Seq::new(found@.len(), |j: int| projection_id(a.next_expr as nat, j)),
        old(package)@.stmts.contains_key(rewrite@.stmt.0),
        old(assigner).next_stmt == a.next_stmt,
        a.next_stmt + found@.len() < usize::MAX,
    ensures
        r@ == new_stmt_ids(a, (found@.len() - 1) as nat),
        final(package)@ == (PackageV {
            stmts: with_lets(
                old(package)@.stmts.insert(
                    rewrite@.stmt.0,
                    Stmt {
                        kind: leaf_let(a, rewrite@, leaf_views(found@), 0),
                        ..old(package)@.stmts[rewrite@.stmt.0]
                    },
                ),
                a,
                rewrite@,
                leaf_views(found@),
                found@.len(),
            ),
            ..old(package)@
        }),
        *final(assigner) == (Assigner {
            next_stmt: (a.next_stmt + found@.len() - 1) as usize,
            ..*old(assigner)
        }),
{
    let ghost p0 = package@;
    let ghost a0 = *assigner;
    let ghost ls = leaf_views(found@);
    let stmt = package.stmts.get_mut(rewrite.stmt_id.0);
    stmt.kind = StmtKind::Local(rewrite.mutability, found[0].pat_id, projections[0]);
    let ghost first_stmts = p0.stmts.insert(
        rewrite@.stmt.0,
        Stmt { kind: leaf_let(a, rewrite@, ls, 0), ..p0.stmts[rewrite@.stmt.0] },
    );
    assert(package@.stmts =~= first_stmts);
    let mut new_ids: Vec<StmtId> = Vec::new();
    assert(new_ids@ =~= new_stmt_ids(a, 0));
    let mut k: usize = 1;
    while k < found.len()
        invariant
            1 <= k <= found@.len(),
            ls == leaf_views(found@),
            a.next_stmt + found@.len() < usize::MAX,
            projections@ == Seq::new(found@.len(), |j: int| projection_id(a.next_expr as nat, j)),
            a0.next_stmt == a.next_stmt,
            package@ == (PackageV {
                stmts: with_lets(first_stmts, a, rewrite@, ls, k as nat),
                ..p0
            }),
            *assigner == (Assigner { next_stmt: (a.next_stmt + k - 1) as usize, ..a0 }),
            new_ids@ == new_stmt_ids(a, (k - 1) as nat),
        decreases found@.len() - k,
    {
        let id = assigner.next_stmt();
        let kind = StmtKind::Local(rewrite.mutability, found[k].pat_id, projections[k]);
        assert(kind == leaf_let(a, rewrite@, ls, k as int));
        package.stmts.insert(
            id.0,
            Stmt { id, span: Span::default(), kind, exec_graph_range: empty_exec_range() },
        );
        new_ids.push(id);
        assert(new_ids@ =~= new_stmt_ids(a, k as nat));
        k = k + 1;
    }
    new_ids
}

/// Takes the first occurrence of the statement out of the block.
fn drop_stmt(package: &mut Package, block_id: BlockId, stmt_id: StmtId)
    requires
        old(package)@.blocks.contains_key(block_id.0),
    ensures
        final(package)@ == (PackageV {
            blocks: old(package)@.blocks.insert(
                block_id.0,
                BlockV {
                    stmts: removed(old(package)@.blocks[block_id.0].stmts, stmt_id),
                    ..old(package)@.blocks[block_id.0]
                },
            ),
            ..old(package)@
        }),
{
    let block = package.blocks.get_mut(block_id.0);
    if let Some(pos) = position(&block.stmts, stmt_id) {
        proof {
            block.stmts@.index_of_first_ensures(stmt_id);
        }
        block.stmts.remove(pos);
    }
    assert(package@.blocks =~= old(package)@.blocks.insert(
        block_id.0,
        BlockV {
            stmts: removed(old(package)@.blocks[block_id.0].stmts, stmt_id),
            ..old(package)@.blocks[block_id.0]
        },
    ));
}

/// Puts the new statements right after the original one in its block.
fn splice_stmts(package: &mut Package, block_id: BlockId, stmt_id: StmtId, new_ids: &Vec<StmtId>)
    requires
        old(package)@.blocks.contains_key(block_id.0),
    ensures
        final(package)@ == (PackageV {
            blocks: old(package)@.blocks.insert(
                block_id.0,
                BlockV {
                    stmts: spliced(old(package)@.blocks[block_id.0].stmts, stmt_id, new_ids@),
                    ..old(package)@.blocks[block_id.0]
                },
            ),
            ..old(package)@
        }),
{
    let block = package.blocks.get_mut(block_id.0);
    splice_after(&mut block.stmts, stmt_id, new_ids);
    assert(package@.blocks =~= old(package)@.blocks.insert(
        block_id.0,
        BlockV {
            stmts: spliced(old(package)@.blocks[block_id.0].stmts, stmt_id, new_ids@),
            ..old(package)@.blocks[block_id.0]
        },
    ));
}

/// Rewrites a single tuple-destructuring statement into positional field projections.
fn apply_destructure_rewrite(
    package: &mut Package,
    assigner: &mut Assigner,
    rewrite: &DestructureRewrite,
)
    requires
        forall|i: int|
            0 <= i < rewrite@.elems.len() ==> pat_ok(
                old(package)@.pats,
                #[trigger] rewrite@.elems[i],
                old(package)@.pat_depth(),
            ),
        old(package)@.blocks.contains_key(rewrite@.block.0),
        old(package)@.stmts.contains_key(rewrite@.stmt.0),
        has_room(*old(assigner), rewrite_leaves(old(package)@, rewrite@).len()),
    ensures
        final(package)@ == rewritten(old(package)@, *old(assigner), rewrite@),
        *final(assigner) == assigner_after(
            *old(assigner),
            rewrite_leaves(old(package)@, rewrite@).len(),
        ),
{
    let ghost p0 = package@;
    let ghost a0 = *assigner;
    let mut found: Vec<Leaf> = Vec::new();
    let mut indices: Vec<usize> = Vec::new();
    collect_element_leaves(
        package,
        &rewrite.element_pat_ids,
        Ghost(p0.pat_depth()),
        &mut indices,
        &mut found,
    );
    proof {
        assert(indices@ =~= seq![]);
        assert(leaf_views(found@) =~= rewrite_leaves(p0, rewrite@));
    }
    if found.len() == 0 {
        // Every element is a discard: the destructuring use of the source local is dead.
        drop_stmt(package, rewrite.block_id, rewrite.stmt_id);
        return ;
    }
    let projections = create_projections(package, assigner, rewrite, &found);
    let new_ids = bind_leaves(package, assigner, rewrite, &found, &projections, Ghost(a0));
    splice_stmts(package, rewrite.block_id, rewrite.stmt_id, &new_ids);
}

/// The rewrites as mathematical values.
pub open spec fn rewrite_views(rs: Seq<DestructureRewrite>) -> Seq<RewriteV> {
    rs.map_values(|r: DestructureRewrite| r@)
}

/// Whether an expression does nothing but read a local variable, or project out of one.
pub open spec fn reads_local(p: PackageV, e: ExprId) -> bool {
    &&& p.exprs.contains_key(e.0)
    &&& match p.exprs[e.0].kind {
        ExprKindV::Var(Res::Local(_), _) => true,
        ExprKindV::Field(base, _) => p.exprs.contains_key(base.0)
            && p.exprs[base.0].kind matches ExprKindV::Var(Res::Local(_), _),
        _ => false,
    }
}

/// Whether a rewrite can be applied: its block exists, its statement exists and binds what is
/// read from a local variable, and its pattern is whole.
pub open spec fn applicable(p: PackageV, r: RewriteV) -> bool {
    &&& p.blocks.contains_key(r.block.0)
    &&& p.stmts.contains_key(r.stmt.0)
    &&& p.stmts[r.stmt.0].kind matches StmtKind::Local(_, _, rhs) && reads_local(p, rhs)
    &&& forall|i: int|
        0 <= i < r.elems.len() ==> pat_ok(p.pats, #[trigger] r.elems[i], p.pat_depth())
}

/// Whether a rewrite comes from a statement of a whole block.
pub open spec fn is_called_for(p: PackageV, r: RewriteV) -> bool {
    &&& p.node_ok(Node::Block(r.block), p.node_depth())
    &&& p.blocks[r.block.0].stmts.contains(r.stmt)
    &&& stmt_rewrite(p, r.block, r.stmt) == Some(r)
}

/// Whether every one of the rewrites comes from a statement of a whole block.
pub open spec fn all_called_for(p: PackageV, rs: Seq<RewriteV>) -> bool {
    forall|i: int| 0 <= i < rs.len() ==> is_called_for(p, #[trigger] rs[i])
}

proof fn lemma_called_for_concat(p: PackageV, first: Seq<RewriteV>, second: Seq<RewriteV>)
    requires
        all_called_for(p, first),
        all_called_for(p, second),
    ensures
        all_called_for(p, first + second),
{
    let all = first + second;
    assert forall|i: int| 0 <= i < all.len() implies is_called_for(p, #[trigger] all[i]) by {
        if i < first.len() {
            assert(is_called_for(p, first[i]));
        } else {
            assert(is_called_for(p, second[i - first.len()]));
        }
    }
}

/// A statement of a whole block exists, and so do its pattern and its right-hand side.
pub proof fn lemma_stmt_whole(p: PackageV, block: BlockId, stmt: StmtId)
    requires
        p.node_ok(Node::Block(block), p.node_depth()),
        p.blocks[block.0].stmts.contains(stmt),
    ensures
        p.blocks.contains_key(block.0),
        p.stmts.contains_key(stmt.0),
        p.stmts[stmt.0].kind matches StmtKind::Local(_, pat, rhs) ==> p.exprs.contains_key(rhs.0)
            && pat_ok(p.pats, pat, p.pat_depth()),
{
    let i = p.blocks[block.0].stmts.index_of(stmt);
    assert(p.parts(Node::Block(block))[i] == Node::Stmt(stmt));
    assert(p.node_ok(Node::Stmt(stmt), (p.node_depth() - 1) as nat));
    if let StmtKind::Local(_, _, rhs) = p.stmts[stmt.0].kind {
        assert(p.parts(Node::Stmt(stmt))[0] == Node::Expr(rhs));
        assert(p.node_ok(Node::Expr(rhs), (p.node_depth() - 2) as nat));
    }
}

/// What a statement of a whole block calls for can be applied.
pub proof fn lemma_applicable(p: PackageV, r: RewriteV)
    requires
        is_called_for(p, r),
    ensures
        applicable(p, r),
{
    lemma_stmt_whole(p, r.block, r.stmt);
    let pat = p.stmts[r.stmt.0].kind->Local_1;
    assert forall|i: int| 0 <= i < r.elems.len() implies pat_ok(
        p.pats,
        #[trigger] r.elems[i],
        p.pat_depth(),
    ) by {
        lemma_pat_ok_deeper(p.pats, r.elems[i], (p.pat_depth() - 1) as nat, p.pat_depth());
    }
}

proof fn lemma_stmts_rewrites(p: PackageV, block: BlockId, stmts: Seq<StmtId>)
    requires
        p.node_ok(Node::Block(block), p.node_depth()),
        forall|i: int|
            0 <= i < stmts.len() ==> p.blocks[block.0].stmts.contains(#[trigger] stmts[i]),
    ensures
        all_called_for(p, stmts_rewrites(p, block, stmts)),
    decreases stmts.len(),
{
    if stmts.len() > 0 {
        assert forall|i: int| 0 <= i < stmts.drop_last().len() implies p.blocks[
            block.0
        ].stmts.contains(#[trigger] stmts.drop_last()[i]) by {
            assert(p.blocks[block.0].stmts.contains(stmts[i]));
        }
        lemma_stmts_rewrites(p, block, stmts.drop_last());
        assert(p.blocks[block.0].stmts.contains(stmts[stmts.len() - 1]));
        let before = stmts_rewrites(p, block, stmts.drop_last());
        if let Some(r) = stmt_rewrite(p, block, stmts.last()) {
            lemma_called_for_concat(p, before, seq![r]);
            assert(before + seq![r] =~= before.push(r));
        }
    }
}

proof fn lemma_nodes_rewrites(p: PackageV, nodes: Seq<Node>)
    requires
        forall|i: int| 0 <= i < nodes.len() ==> p.node_ok(#[trigger] nodes[i], p.node_depth()),
    ensures
        all_called_for(p, nodes_rewrites(p, nodes)),
    decreases nodes.len(),
{
    if nodes.len() > 0 {
        lemma_nodes_rewrites(p, nodes.drop_last());
        assert(p.node_ok(nodes[nodes.len() - 1], p.node_depth()));
        if let Node::Block(b) = nodes.last() {
            lemma_stmts_rewrites(p, b, p.blocks[b.0].stmts);
            lemma_called_for_concat(
                p,
                nodes_rewrites(p, nodes.drop_last()),
                stmts_rewrites(p, b, p.blocks[b.0].stmts),
            );
        }
    }
}

proof fn lemma_items_rewrites(
    p: PackageV,
    package: PackageId,
    reachable: Set<StoreItemId>,
    items: Seq<usize>,
)
    requires
        forall|i: int| 0 <= i < items.len() ==> p.items.contains_key(#[trigger] items[i]),
        forall|k: usize| #[trigger]
            p.items.contains_key(k) && reachable.contains(
                StoreItemId { package, item: LocalItemId(k) },
            ) ==> (p.items[k].kind matches ItemKind::Callable(decl) ==> p.callable_ok(*decl)),
    ensures
        all_called_for(p, items_rewrites(p, package, reachable, items)),
    decreases items.len(),
{
    if items.len() > 0 {
        lemma_items_rewrites(p, package, reachable, items.drop_last());
        assert(p.items.contains_key(items[items.len() - 1]));
        if let ItemKind::Callable(decl) = p.items[items.last()].kind {
            if reachable.contains(StoreItemId { package, item: LocalItemId(items.last()) }) {
                assert(p.callable_ok(*decl));
                lemma_walk_all_ok(p, body_nodes(decl.implementation), p.node_depth());
                lemma_nodes_rewrites(p, p.callable_walk(decl.implementation));
                lemma_called_for_concat(
                    p,
                    items_rewrites(p, package, reachable, items.drop_last()),
                    nodes_rewrites(p, p.callable_walk(decl.implementation)),
                );
            }
        }
    }
}

/// Every rewrite in a package comes from a statement of a whole block.
pub proof fn lemma_package_rewrites(store: Map<usize, PackageV>, package: PackageId)
    requires
        reach_ok(store, package, Seq::empty()),
    ensures
        all_called_for(store[package.0], package_rewrites(store, package)),
{
    let p = store[package.0];
    let reachable = reachable_set(store, package, Seq::empty());
    assert forall|k: usize| #[trigger]
        p.items.contains_key(k) && reachable.contains(
            StoreItemId { package, item: LocalItemId(k) },
        ) implies (p.items[k].kind matches ItemKind::Callable(decl) ==> p.callable_ok(*decl)) by {
        assert(item_ok(store, StoreItemId { package, item: LocalItemId(k) }));
    }
    let items = keys_in_order(p.items.dom());
    lemma_keys_below(p.items.dom(), usize::MAX as nat + 1);
    assert forall|i: int| 0 <= i < items.len() implies p.items.contains_key(
        #[trigger] items[i],
    ) by {
        assert(items.contains(items[i]));
    }
    lemma_items_rewrites(p, package, reachable, items);
}

/// The rewrite that the statement calls for.
fn stmt_rewrite_of(package: &Package, block_id: BlockId, stmt_id: StmtId) -> (r: Option<
    DestructureRewrite,
>)
    requires
        package@.node_ok(Node::Block(block_id), package@.node_depth()),
        package@.blocks[block_id.0].stmts.contains(stmt_id),
    ensures
        match r {
            Some(r) => stmt_rewrite(package@, block_id, stmt_id) == Some(r@),
            None => stmt_rewrite(package@, block_id, stmt_id) is None,
        },
{
    proof {
        lemma_stmt_whole(package@, block_id, stmt_id);
    }
    if let StmtKind::Local(mutability, pat_id, rhs_id) = package.get_stmt(stmt_id).kind {
        let rhs = package.get_expr(rhs_id);
        if let PatKind::Tuple(elems) = &package.get_pat(pat_id).kind {
            if let ExprKind::Var(Res::Local(source), _) = &rhs.kind {
                if let Ty::Tuple(tys) = &rhs.ty {
                    if elems.len() == tys.len() {
                        return Some(
                            DestructureRewrite {
                                block_id,
                                stmt_id,
                                mutability,
                                source_local: *source,
                                tuple_ty: rhs.ty.clone(),
                                element_pat_ids: copy_all(elems),
                            },
                        );
                    }
                }
            }
        }
    }
    None
}

/// Adds the rewrites in a block to `found`.
fn note_block_rewrites(package: &Package, block_id: BlockId, found: &mut Vec<DestructureRewrite>)
    requires
        package@.node_ok(Node::Block(block_id), package@.node_depth()),
    ensures
        rewrite_views(final(found)@) == rewrite_views(old(found)@) + stmts_rewrites(
            package@,
            block_id,
            package@.blocks[block_id.0].stmts,
        ),
{
    let block = package.get_block(block_id);
    let ghost stmts = block.stmts@;
    let mut i: usize = 0;
    while i < block.stmts.len()
        invariant
            i <= stmts.len(),
            stmts == block.stmts@,
            stmts == package@.blocks[block_id.0].stmts,
            package@.node_ok(Node::Block(block_id), package@.node_depth()),
            rewrite_views(found@) == rewrite_views(old(found)@) + stmts_rewrites(
                package@,
                block_id,
                stmts.take(i as int),
            ),
        decreases stmts.len() - i,
    {
        assert(stmts.take(i + 1).drop_last() =~= stmts.take(i as int));
        assert(stmts.contains(stmts[i as int]));
        if let Some(rewrite) = stmt_rewrite_of(package, block_id, block.stmts[i]) {
            let ghost before = found@;
            found.push(rewrite);
            assert(rewrite_views(found@) =~= rewrite_views(before).push(rewrite@));
        }
        i = i + 1;
    }
    assert(stmts.take(i as int) =~= stmts);
}

/// Adds the rewrites in a callable to `found`.
fn note_callable_rewrites(
    package: &Package,
    decl: &CallableDecl,
    found: &mut Vec<DestructureRewrite>,
)
    requires
        package@.callable_ok(*decl),
    ensures
        rewrite_views(final(found)@) == rewrite_views(old(found)@) + nodes_rewrites(
            package@,
            package@.callable_walk(decl.implementation),
        ),
{
    let nodes = callable_nodes(package, decl);
    proof {
        lemma_walk_all_ok(
            package@,
            body_nodes(decl.implementation),
            package@.node_depth(),
        );
    }
    let mut i: usize = 0;
    while i < nodes.len()
        invariant
            i <= nodes@.len(),
            forall|j: int|
                0 <= j < nodes@.len() ==> package@.node_ok(
                    #[trigger] nodes@[j],
                    package@.node_depth(),
                ),
            rewrite_views(found@) == rewrite_views(old(found)@) + nodes_rewrites(
                package@,
                nodes@.take(i as int),
            ),
        decreases nodes@.len() - i,
    {
        assert(nodes@.take(i + 1).drop_last() =~= nodes@.take(i as int));
        if let Node::Block(block_id) = nodes[i] {
            note_block_rewrites(package, block_id, found);
        }
        i = i + 1;
    }
    assert(nodes@.take(i as int) =~= nodes@);
}

/// The rewrites in the callables of the package that its entry expression reaches.
fn collect_rewrites(store: &PackageStore, package_id: PackageId) -> (r: Vec<DestructureRewrite>)
    requires
        reach_ok(store@, package_id, Seq::empty()),
    ensures
        rewrite_views(r@) == package_rewrites(store@, package_id),
{
    let reachable = collect_reachable_from_entry(store, package_id);
    let package = store.get(package_id);
    let items = package.items.keys();
    let ghost p = package@;
    proof {
        lemma_keys_below(p.items.dom(), usize::MAX as nat + 1);
    }
    let mut found: Vec<DestructureRewrite> = Vec::new();
    let mut i: usize = 0;
    while i < items.len()
        invariant
            i <= items@.len(),
            reach_ok(store@, package_id, Seq::empty()),
            p == package@,
            p == store@[package_id.0],
            reachable@ == reachable_set(store@, package_id, Seq::empty()),
            forall|k: usize| #[trigger] items@.contains(k) ==> p.items.contains_key(k),
            rewrite_views(found@) == items_rewrites(
                p,
                package_id,
                reachable@,
                items@.take(i as int),
            ),
        decreases items@.len() - i,
    {
        assert(items@.take(i + 1).drop_last() =~= items@.take(i as int));
        assert(items@.contains(items@[i as int]));
        let id = LocalItemId(items[i]);
        if reachable.contains(&StoreItemId { package: package_id, item: id }) {
            assert(item_ok(store@, StoreItemId { package: package_id, item: id }));
            if let ItemKind::Callable(decl) = &package.get_item(id).kind {
                note_callable_rewrites(package, decl, &mut found);
            }
        }
        i = i + 1;
    }
    assert(items@.take(i as int) =~= items@);
    found
}

/// Rewrites leave patterns alone, keep blocks and statements, and hand out two expressions for each
/// leaf and at most one statement.
pub proof fn lemma_normalized_frame(p: PackageV, a: Assigner, rs: Seq<RewriteV>)
    requires
        has_room(a, leaf_count(p, rs)),
        forall|i: int| 0 <= i < rs.len() ==> applicable(p, #[trigger] rs[i]),
    ensures
        normalized(p, a, rs).0.pats == p.pats,
        normalized(p, a, rs).0.blocks.dom() == p.blocks.dom(),
        p.stmts.dom().subset_of(normalized(p, a, rs).0.stmts.dom()),
        normalized(p, a, rs).1.next_expr == a.next_expr + 2 * leaf_count(p, rs),
        a.next_stmt <= normalized(p, a, rs).1.next_stmt <= a.next_stmt + leaf_count(p, rs),
    decreases rs.len(),
{
    if rs.len() > 0 {
        lemma_normalized_frame(p, a, rs.drop_last());
        let (q, b) = normalized(p, a, rs.drop_last());
        assert(applicable(p, rs[rs.len() - 1]));
        let r = rs.last();
        let ls = rewrite_leaves(q, r);
        lemma_with_lets_keys(
            q.stmts.insert(r.stmt.0, Stmt { kind: leaf_let(b, r, ls, 0), ..q.stmts[r.stmt.0] }),
            b,
            r,
            ls,
            ls.len(),
        );
        assert(normalized(p, a, rs).0.blocks.dom() =~= p.blocks.dom());
    }
}

proof fn lemma_with_lets_keys(
    stmts: Map<usize, Stmt>,
    a: Assigner,
    r: RewriteV,
    ls: Seq<LeafV>,
    n: nat,
)
    ensures
        stmts.dom().subset_of(with_lets(stmts, a, r, ls, n).dom()),
    decreases n,
{
    if n > 1 {
        lemma_with_lets_keys(stmts, a, r, ls, (n - 1) as nat);
    }
}

/// Applies the rewrites, one after the other.
fn apply_rewrites(
    package: &mut Package,
    assigner: &mut Assigner,
    rewrites: &Vec<DestructureRewrite>,
)
    requires
        forall|i: int|
            0 <= i < rewrites@.len() ==> applicable(old(package)@, (#[trigger] rewrites@[i])@),
        has_room(*old(assigner), leaf_count(old(package)@, rewrite_views(rewrites@))),
    ensures
        (final(package)@, *final(assigner)) == normalized(
            old(package)@,
            *old(assigner),
            rewrite_views(rewrites@),
        ),
{
    let ghost p = package@;
    let ghost a = *assigner;
    let ghost rs = rewrite_views(rewrites@);
    let mut i: usize = 0;
    while i < rewrites.len()
        invariant
            i <= rewrites@.len(),
            rs == rewrite_views(rewrites@),
            forall|i: int| 0 <= i < rewrites@.len() ==> applicable(p, (#[trigger] rewrites@[i])@),
            has_room(a, leaf_count(p, rs)),
            (package@, *assigner) == normalized(p, a, rs.take(i as int)),
        decreases rewrites@.len() - i,
    {
        proof {
            let done = rs.take(i as int);
            assert(rs.take(i + 1).drop_last() =~= done);
            lemma_leaf_count_prefix(p, rs, i + 1);
            assert forall|j: int| 0 <= j < done.len() implies applicable(
                p,
                #[trigger] done[j],
            ) by {
                assert(applicable(p, rewrites@[j]@));
            }
            lemma_normalized_frame(p, a, done);
            assert(applicable(p, rewrites@[i as int]@));
            assert(rs.take(i + 1).last() == rewrites@[i as int]@);
        }
        apply_destructure_rewrite(package, assigner, &rewrites[i]);
        i = i + 1;
    }
    assert(rs.take(i as int) =~= rs);
}

proof fn lemma_leaf_count_prefix(p: PackageV, rs: Seq<RewriteV>, n: int)
    requires
        0 <= n <= rs.len(),
    ensures
        leaf_count(p, rs.take(n)) <= leaf_count(p, rs),
    decreases rs.len(),
{
    if n < rs.len() {
        lemma_leaf_count_prefix(p, rs.drop_last(), n);
        assert(rs.drop_last().take(n) =~= rs.take(n));
    } else {
        assert(rs.take(n) =~= rs);
    }
}

/// Whether [`normalize_tuple_destructuring`] can be called: what the entry expression reaches is
/// whole, and there are identifiers left for every variable that is to be bound.
pub fn can_normalize(store: &PackageStore, package_id: PackageId, assigner: &Assigner) -> (r: bool)
    ensures
        r == (reach_ok(store@, package_id, Seq::empty()) && has_room(
            *assigner,
            leaf_count(store@[package_id.0], package_rewrites(store@, package_id)),
        )),
{
    if try_collect_reachable(store, package_id, &Vec::new()).is_none() {
        return false;
    }
    let package = store.get(package_id);
    let rewrites = collect_rewrites(store, package_id);
    let ghost p = package@;
    let ghost rs = rewrite_views(rewrites@);
    proof {
        lemma_package_rewrites(store@, package_id);
        assert forall|i: int| 0 <= i < rewrites@.len() implies applicable(
            p,
            (#[trigger] rewrites@[i])@,
        ) by {
            assert(is_called_for(p, rs[i]));
            lemma_applicable(p, rewrites@[i]@);
        }
    }
    let mut leaves: u128 = 0;
    let mut i: usize = 0;
    while i < rewrites.len()
        invariant
            i <= rewrites@.len(),
            p == package@,
            rs == rewrite_views(rewrites@),
            rs == package_rewrites(store@, package_id),
            p == store@[package_id.0],
            forall|i: int| 0 <= i < rewrites@.len() ==> applicable(p, (#[trigger] rewrites@[i])@),
            leaves == leaf_count(p, rs.take(i as int)),
            leaves <= usize::MAX,
        decreases rewrites@.len() - i,
    {
        let mut found: Vec<Leaf> = Vec::new();
        let mut indices: Vec<usize> = Vec::new();
        let rewrite: &DestructureRewrite = &rewrites[i];
        assert(applicable(p, rewrite@));
        assert(rewrite@.elems == rewrite.element_pat_ids@);
        collect_element_leaves(
            package,
            &rewrite.element_pat_ids,
            Ghost(p.pat_depth()),
            &mut indices,
            &mut found,
        );
        proof {
            assert(indices@ =~= seq![]);
            assert(leaf_views(found@) =~= rewrite_leaves(p, rs[i as int]));
            assert(rs.take(i + 1).drop_last() =~= rs.take(i as int));
            lemma_leaf_count_prefix(p, rs, i + 1);
        }
        leaves = leaves + found.len() as u128;
        if leaves > usize::MAX as u128 {
            return false;
        }
        i = i + 1;
    }
    assert(rs.take(i as int) =~= rs);
    assigner.next_expr as u128 + 2 * leaves < usize::MAX as u128 && assigner.next_stmt as u128
        + leaves < usize::MAX as u128
}

/// Whether some callable of the package that its entry expression reaches takes a local variable
/// apart: has a block with a `let` of a tuple pattern whose right-hand side is a local variable, of
/// a tuple type with as many elements as the pattern.
pub open spec fn destructures(store: Map<usize, PackageV>, package: PackageId) -> bool {
    let p = store[package.0];
    exists|item: usize, b: BlockId, s: StmtId|
        {
            &&& #[trigger] p.items.contains_key(item)
            &&& reachable_set(store, package, Seq::empty()).contains(
                StoreItemId { package, item: LocalItemId(item) },
            )
            &&& p.items[item].kind matches ItemKind::Callable(decl)
                && p.callable_walk(decl.implementation).contains(Node::Block(b))
            &&& #[trigger] p.blocks[b.0].stmts.contains(s)
            &&& p.stmts[s.0].kind matches StmtKind::Local(_, pat, rhs)
                && p.pats[pat.0].kind matches PatKind::Tuple(elems)
                && p.exprs[rhs.0].kind matches ExprKindV::Var(Res::Local(_), _)
                && p.exprs[rhs.0].ty matches TyV::Tuple(tys) && elems@.len() == tys.len()
        }
}

/// Normalizes tuple-destructuring `let`s in the callables of the package that its entry
/// expression reaches: `let (a, b, ...) = src;`, where `src` is a local variable, becomes
/// `let a = src::0; let b = src::1; ...`, with one projection for each variable that the pattern
/// binds, however deeply nested, and none for a discard. Says whether anything was rewritten.
///
/// Any other right-hand side is left as it is, and so is a pattern that does not have as many
/// elements as the type of the variable.
pub fn normalize_tuple_destructuring(
    store: &mut PackageStore,
    package_id: PackageId,
    assigner: &mut Assigner,
) -> (r: bool)
    requires
        reach_ok(old(store)@, package_id, Seq::empty()),
        has_room(
            *old(assigner),
            leaf_count(old(store)@[package_id.0], package_rewrites(old(store)@, package_id)),
        ),
    ensures
        r == destructures(old(store)@, package_id),
        r == (package_rewrites(old(store)@, package_id).len() > 0),
        final(store)@ == old(store)@.insert(
            package_id.0,
            normalized(
                old(store)@[package_id.0],
                *old(assigner),
                package_rewrites(old(store)@, package_id),
            ).0,
        ),
        *final(assigner) == normalized(
            old(store)@[package_id.0],
            *old(assigner),
            package_rewrites(old(store)@, package_id),
        ).1,
        is_fresh(*old(assigner), old(store)@[package_id.0]) ==> reach_ok(
            final(store)@,
            package_id,
            Seq::empty(),
        ) && is_fresh(*final(assigner), final(store)@[package_id.0]) && !destructures(
            final(store)@,
            package_id,
        ),
{
    let rewrites = collect_rewrites(store, package_id);
    proof {
        lemma_destructures(store@, package_id);
        if is_fresh(*assigner, store@[package_id.0]) {
            lemma_normalization_keeps(store@, package_id, *assigner);
            lemma_normalization_is_idempotent(store@, package_id, *assigner);
            lemma_destructures(
                store@.insert(
                    package_id.0,
                    normalized(
                        store@[package_id.0],
                        *assigner,
                        package_rewrites(store@, package_id),
                    ).0,
                ),
                package_id,
            );
        }
    }
    if rewrites.len() == 0 {
        assert(store@ =~= old(store)@.insert(package_id.0, old(store)@[package_id.0]));
        return false;
    }
    proof {
        let p = store@[package_id.0];
        lemma_package_rewrites(store@, package_id);
        assert forall|i: int| 0 <= i < rewrites@.len() implies applicable(
            p,
            (#[trigger] rewrites@[i])@,
        ) by {
            assert(is_called_for(p, package_rewrites(store@, package_id)[i]));
            lemma_applicable(p, rewrites@[i]@);
        }
    }
    let package = store.get_mut(package_id);
    apply_rewrites(package, assigner, &rewrites);
    true
}

} // verus!
