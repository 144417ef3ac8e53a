//! What packages are as mathematical values.

use vstd::prelude::*;

use crate::fir::{
    Block, Expr, ExprKind, ExprKindV, Field, Package, PackageId, PackageStore, Ty, TyV,
};

verus! {

/// A type as a mathematical value has the same shape, with the same elements in the same order.
pub proof fn lemma_ty_view(ty: Ty)
    ensures
        match ty {
            Ty::Array(elem) => ty@ == TyV::Array(Box::new((*elem)@)),
            Ty::Prim(prim) => ty@ == TyV::Prim(prim),
            Ty::Tuple(elems) => ty@ matches TyV::Tuple(tys) && tys.len() == elems@.len() && (forall|
                i: int,
            |
                0 <= i < elems@.len() ==> #[trigger] tys[i] == elems@[i]@),
            Ty::Named(name) => ty@ == TyV::Named(name@),
        },
{
}

/// An expression as a mathematical value keeps all that it holds: a variable what it resolves to
/// and its arguments, a positional projection its record and its path, and every other expression
/// itself, a projection by name among them.
pub proof fn lemma_expr_view(expr: Expr)
    ensures
        expr@.id == expr.id,
        expr@.span == expr.span,
        expr@.ty == expr.ty@,
        expr@.exec_graph_range == expr.exec_graph_range,
        match expr.kind {
            ExprKind::Var(res, args) => expr@.kind == ExprKindV::Var(res, args@),
            ExprKind::Field(record, field) => expr@.kind == match field {
                Field::Path(path) => ExprKindV::Field(record, path.indices@),
                _ => ExprKindV::Other(expr.kind),
            },
            _ => expr@.kind == ExprKindV::Other(expr.kind),
        },
{
}

/// A block as a mathematical value keeps all that it holds.
pub proof fn lemma_block_view(block: Block)
    ensures
        block@.id == block.id,
        block@.span == block.span,
        block@.ty == block.ty@,
        block@.stmts == block.stmts@,
{
}

/// A package as a mathematical value has every node that it holds, under the same identifier, and
/// no other; so has a store its packages.
pub proof fn lemma_package_view(store: PackageStore, id: PackageId, k: usize)
    ensures
        ({
            let slots = store.packages.slots@;
            store@.contains_key(id.0) <==> id.0 < slots.len() && slots[id.0 as int] is Some
        }),
        store@.contains_key(id.0) ==> {
            let package = store.packages.slots@[id.0 as int]->0;
            let (blocks, exprs) = (package.blocks.slots@, package.exprs.slots@);
            let (pats, stmts) = (package.pats.slots@, package.stmts.slots@);
            let items = package.items.slots@;
            &&& store@[id.0] == package@
            &&& package@.entry == package.entry
            &&& package@.blocks.contains_key(k) <==> k < blocks.len() && blocks[k as int] is Some
            &&& package@.exprs.contains_key(k) <==> k < exprs.len() && exprs[k as int] is Some
            &&& package@.pats.contains_key(k) <==> k < pats.len() && pats[k as int] is Some
            &&& package@.stmts.contains_key(k) <==> k < stmts.len() && stmts[k as int] is Some
            &&& package@.items.contains_key(k) <==> k < items.len() && items[k as int] is Some
            &&& package@.blocks.contains_key(k) ==> package@.blocks[k] == blocks[k as int]->0@
            &&& package@.exprs.contains_key(k) ==> package@.exprs[k] == exprs[k as int]->0@
            &&& package@.pats.contains_key(k) ==> package@.pats[k] == pats[k as int]->0
            &&& package@.stmts.contains_key(k) ==> package@.stmts[k] == stmts[k as int]->0
            &&& package@.items.contains_key(k) ==> package@.items[k] == items[k as int]->0
        },
{
}

} // verus!
