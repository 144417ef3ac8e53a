//! What the short renderings of types, patterns and calls come down to.

use vstd::prelude::*;

use crate::fir::{
    ExprId, ExprKind, ExprKindV, Functor, ItemId, ItemKind, Lit, Measured, PackageV, Pat, PatId,
    PatKind, Pauli, Prim, Res, TyV, UnOp,
};
use crate::index_map::{keys_in_order, lemma_keys_below};
use crate::shapes::{
    bound_names, call_texts, callable_named, first_named, item_text, lit_text, op_text,
    operand_text, operand_texts, package_names, pat_text, pat_texts, path_text, prim_text,
    projection_texts, short_text, ty_text, ty_texts,
};
use crate::text::{decimal, joined, signed_decimal};
use crate::walk::{pat_ok, Node};

verus! {

proof fn lemma_ty_texts(tys: Seq<TyV>)
    ensures
        ty_texts(tys) == tys.map_values(|ty: TyV| ty_text(ty)),
    decreases tys.len(),
{
    if tys.len() > 0 {
        lemma_ty_texts(tys.drop_last());
    }
    assert(ty_texts(tys) =~= tys.map_values(|ty: TyV| ty_text(ty)));
}

/// A tuple type is written as its elements in round brackets, in order, with a comma after a
/// single one; without elements it is the unit type. An array type is its element type with square
/// brackets after it, and a named type is its name.
pub proof fn lemma_ty_text(ty: TyV)
    ensures
        match ty {
            TyV::Tuple(tys) => ty_text(ty) == if tys.len() == 0 {
                "Unit"@
            } else {
                "("@ + joined(tys.map_values(|ty: TyV| ty_text(ty)), ", "@) + if tys.len() == 1 {
                    ",)"@
                } else {
                    ")"@
                }
            },
            TyV::Array(elem) => ty_text(ty) == ty_text(*elem) + "[]"@,
            TyV::Named(name) => ty_text(ty) == name,
            TyV::Prim(prim) => ty_text(ty) == prim_text(prim),
        },
{
    if let TyV::Tuple(tys) = ty {
        lemma_ty_texts(tys);
    }
}

proof fn lemma_pat_text_deeper(pats: Map<usize, Pat>, id: PatId, d1: nat, d2: nat)
    requires
        pat_ok(pats, id, d1),
        d1 <= d2,
    ensures
        pat_text(pats, id, d1) == pat_text(pats, id, d2),
    decreases d1, 0nat,
{
    if let PatKind::Tuple(subs) = pats[id.0].kind {
        lemma_pat_texts_deeper(pats, subs@, (d1 - 1) as nat, (d2 - 1) as nat);
    }
}

proof fn lemma_pat_texts_deeper(pats: Map<usize, Pat>, ids: Seq<PatId>, d1: nat, d2: nat)
    requires
        forall|i: int| 0 <= i < ids.len() ==> pat_ok(pats, #[trigger] ids[i], d1),
        d1 <= d2,
    ensures
        pat_texts(pats, ids, d1) == pat_texts(pats, ids, d2),
        pat_texts(pats, ids, d2) == ids.map_values(|id: PatId| pat_text(pats, id, d2)),
    decreases d1, ids.len(),
{
    if ids.len() > 0 {
        let rest = ids.drop_last();
        assert forall|i: int| 0 <= i < rest.len() implies pat_ok(pats, #[trigger] rest[i], d1) by {
            assert(rest[i] == ids[i]);
        }
        assert(pat_ok(pats, ids[ids.len() - 1], d1));
        lemma_pat_texts_deeper(pats, rest, d1, d2);
        lemma_pat_text_deeper(pats, ids.last(), d1, d2);
    }
    assert(pat_texts(pats, ids, d2) =~= ids.map_values(|id: PatId| pat_text(pats, id, d2)));
}

/// A pattern is written as what it does: the name and the type of the variable that it binds, the
/// type of what it discards, or its elements, in order, each written in the same way.
pub proof fn lemma_pat_text(p: PackageV, id: PatId)
    requires
        pat_ok(p.pats, id, p.pat_depth()),
    ensures
        ({
            let depth = p.pat_depth();
            let text = pat_text(p.pats, id, depth);
            match p.pats[id.0].kind {
                PatKind::Bind(ident) => text == "Bind("@ + ident.name@ + ": "@ + ty_text(
                    p.pats[id.0].ty@,
                ) + ")"@,
                PatKind::Discard => text == "Discard("@ + ty_text(p.pats[id.0].ty@) + ")"@,
                PatKind::Tuple(subs) => text == "Tuple("@ + joined(
                    subs@.map_values(|sub: PatId| pat_text(p.pats, sub, depth)),
                    ", "@,
                ) + ")"@,
            }
        }),
{
    let depth = p.pat_depth();
    if let PatKind::Tuple(subs) = p.pats[id.0].kind {
        lemma_pat_texts_deeper(p.pats, subs@, (depth - 1) as nat, depth);
    }
}

/// A path is written as its indices in decimal, each after a dot.
pub proof fn lemma_path_text(x: Seq<usize>, y: Seq<usize>)
    ensures
        path_text(x + y) == path_text(x) + path_text(y),
        x.len() == 1 ==> path_text(x) == "."@ + decimal(x[0] as nat),
        x.len() == 0 ==> path_text(x).len() == 0,
    decreases y.len(),
{
    if y.len() == 0 {
        assert(x + y =~= x);
        assert(path_text(x) + path_text(y) =~= path_text(x));
    } else {
        assert((x + y).drop_last() =~= x + y.drop_last());
        lemma_path_text(x, y.drop_last());
        assert(path_text(x + y) =~= path_text(x) + path_text(y));
    }
    if x.len() == 1 {
        assert(x.drop_last() =~= seq![]);
        assert(path_text(x.drop_last()) =~= seq![]);
        assert(path_text(x) =~= "."@ + decimal(x[0] as nat));
    }
}

/// A callable of the package is written as its name; anything else as both numbers of its
/// identifier.
pub proof fn lemma_item_text(p: PackageV, id: ItemId)
    ensures
        p.items.contains_key(id.item.0) && p.items[id.item.0].kind is Callable ==> item_text(p, id)
            == p.items[id.item.0].kind->Callable_0.name.name@,
        !(p.items.contains_key(id.item.0) && p.items[id.item.0].kind is Callable) ==> item_text(
            p,
            id,
        ) == "ItemId { package: PackageId("@ + decimal(id.package.0 as nat)
            + "), item: LocalItemId("@ + decimal(id.item.0 as nat) + ") }"@,
{
}

/// Each primitive type has its own name.
pub proof fn lemma_prim_text(prim: Prim)
    ensures
        prim_text(Prim::BigInt) == "BigInt"@,
        prim_text(Prim::Bool) == "Bool"@,
        prim_text(Prim::Double) == "Double"@,
        prim_text(Prim::Int) == "Int"@,
        prim_text(Prim::Pauli) == "Pauli"@,
        prim_text(Prim::Qubit) == "Qubit"@,
        prim_text(Prim::Range) == "Range"@,
        prim_text(Prim::RangeFrom) == "RangeFrom"@,
        prim_text(Prim::RangeFull) == "RangeFull"@,
        prim_text(Prim::RangeTo) == "RangeTo"@,
        prim_text(Prim::Result) == "Result"@,
        prim_text(Prim::String) == "String"@,
        forall|other: Prim| #[trigger] prim_text(other) == prim_text(prim) ==> other == prim,
{
    reveal_strlit("BigInt");
    reveal_strlit("Bool");
    reveal_strlit("Double");
    reveal_strlit("Int");
    reveal_strlit("Pauli");
    reveal_strlit("Qubit");
    reveal_strlit("Range");
    reveal_strlit("RangeFrom");
    reveal_strlit("RangeFull");
    reveal_strlit("RangeTo");
    reveal_strlit("Result");
    reveal_strlit("String");
    assert forall|other: Prim| #[trigger] prim_text(other) == prim_text(prim) implies other
        == prim by {
        let (x, y) = (prim_text(other), prim_text(prim));
        assert(x.len() == y.len() && x[0] == y[0]);
        assert(x[1] == y[1]);
        assert(x[2] == y[2]);
        if x.len() > 5 {
            assert(x[5] == y[5]);
        }
        if x.len() > 6 {
            assert(x[6] == y[6]);
        }
    }
}

/// A literal is written with its kind and its value.
pub proof fn lemma_lit_text(lit: Lit)
    ensures
        match lit {
            Lit::Int(n) => lit_text(lit) == "Int("@ + signed_decimal(n as int) + ")"@,
            Lit::BigInt(text) => lit_text(lit) == "BigInt("@ + text@ + ")"@,
            Lit::Double(text) => lit_text(lit) == "Double("@ + text@ + ")"@,
            Lit::Imaginary(text) => lit_text(lit) == "Imaginary("@ + text@ + ")"@,
            Lit::Bool(b) => lit_text(lit) == if b {
                "Bool(true)"@
            } else {
                "Bool(false)"@
            },
            Lit::Result(measured) => lit_text(lit) == if measured == Measured::One {
                "Result(One)"@
            } else {
                "Result(Zero)"@
            },
            Lit::Pauli(pauli) => lit_text(lit) == if pauli == Pauli::I {
                "Pauli(I)"@
            } else if pauli == Pauli::X {
                "Pauli(X)"@
            } else if pauli == Pauli::Y {
                "Pauli(Y)"@
            } else {
                "Pauli(Z)"@
            },
        },
{
}

/// An operator is written as its name.
pub proof fn lemma_op_text()
    ensures
        op_text(UnOp::Functor(Functor::Adj)) == "Functor(Adj)"@,
        op_text(UnOp::Functor(Functor::Ctl)) == "Functor(Ctl)"@,
        op_text(UnOp::Neg) == "Neg"@,
        op_text(UnOp::NotB) == "NotB"@,
        op_text(UnOp::NotL) == "NotL"@,
        op_text(UnOp::Pos) == "Pos"@,
        op_text(UnOp::Unwrap) == "Unwrap"@,
{
}

/// Arrays and tuples are written with their kind and how many elements they have; every other
/// expression as its kind alone, whatever it holds.
pub proof fn lemma_short_text(kind: ExprKind)
    ensures
        ({
            let text = short_text(ExprKindV::Other(kind));
            match kind {
                ExprKind::Array(es) => text == "Array(len="@ + decimal(es@.len()) + ")"@,
                ExprKind::ArrayLit(es) => text == "ArrayLit(len="@ + decimal(es@.len()) + ")"@,
                ExprKind::Tuple(es) => text == "Tuple(len="@ + decimal(es@.len()) + ")"@,
                ExprKind::Call(_, _) => text == "Call"@,
                ExprKind::Closure(_, _) => text == "Closure"@,
                ExprKind::Block(_) => text == "Block"@,
                ExprKind::If(_, _, _) => text == "If"@,
                ExprKind::While(_, _) => text == "While"@,
                ExprKind::Return(_) => text == "Return"@,
                ExprKind::Fail(_) => text == "Fail"@,
                ExprKind::Hole => text == "Hole"@,
                ExprKind::Lit(_) => text == "Lit"@,
                ExprKind::String(_) => text == "String"@,
                ExprKind::Range(_, _, _) => text == "Range"@,
                ExprKind::Index(_, _) => text == "Index"@,
                ExprKind::Struct(_, _, _) => text == "Struct"@,
                ExprKind::BinOp(_, _, _) => text == "BinOp"@,
                ExprKind::UnOp(_, _) => text == "UnOp"@,
                ExprKind::ArrayRepeat(_, _) => text == "ArrayRepeat"@,
                ExprKind::Assign(_, _) => text == "Assign"@,
                ExprKind::AssignField(_, _, _) => text == "AssignField"@,
                ExprKind::AssignIndex(_, _, _) => text == "AssignIndex"@,
                ExprKind::AssignOp(_, _, _) => text == "AssignOp"@,
                ExprKind::UpdateField(_, _, _) => text == "UpdateField"@,
                ExprKind::UpdateIndex(_, _, _) => text == "UpdateIndex"@,
                ExprKind::Field(_, _) => text == "Field"@,
                ExprKind::Var(_, _) => text == "Var"@,
            }
        }),
        forall|base: ExprId, path: Seq<usize>| #[trigger]
            short_text(ExprKindV::Field(base, path)) == "Field"@,
{
}

proof fn lemma_operand_text_deeper(
    p: PackageV,
    names: Map<usize, Seq<char>>,
    e: ExprId,
    d1: nat,
    d2: nat,
)
    requires
        p.node_ok(Node::Expr(e), d1),
        d1 <= d2,
    ensures
        operand_text(p, names, e, d1) == operand_text(p, names, e, d2),
    decreases d1, 0nat,
{
    let node = Node::Expr(e);
    let inner = (d1 - 1) as nat;
    match p.exprs[e.0].kind {
        ExprKindV::Field(record, _) => {
            assert(p.node_ok(p.parts(node)[0], inner));
            lemma_operand_text_deeper(p, names, record, inner, (d2 - 1) as nat);
        },
        ExprKindV::Other(ExprKind::UnOp(_, operand)) => {
            assert(p.node_ok(p.parts(node)[0], inner));
            lemma_operand_text_deeper(p, names, operand, inner, (d2 - 1) as nat);
        },
        ExprKindV::Other(ExprKind::Tuple(items)) => {
            assert forall|i: int| 0 <= i < items@.len() implies p.node_ok(
                Node::Expr(#[trigger] items@[i]),
                inner,
            ) by {
                assert(p.node_ok(p.parts(node)[i], inner));
            }
            lemma_operand_texts_deeper(p, names, items@, inner, (d2 - 1) as nat);
        },
        _ => {},
    }
}

proof fn lemma_operand_texts_deeper(
    p: PackageV,
    names: Map<usize, Seq<char>>,
    es: Seq<ExprId>,
    d1: nat,
    d2: nat,
)
    requires
        forall|i: int| 0 <= i < es.len() ==> p.node_ok(Node::Expr(#[trigger] es[i]), d1),
        d1 <= d2,
    ensures
        operand_texts(p, names, es, d1) == operand_texts(p, names, es, d2),
        operand_texts(p, names, es, d2) == es.map_values(
            |e: ExprId| operand_text(p, names, e, d2),
        ),
    decreases d1, es.len(),
{
    if es.len() > 0 {
        let rest = es.drop_last();
        assert forall|i: int| 0 <= i < rest.len() implies p.node_ok(
            Node::Expr(#[trigger] rest[i]),
            d1,
        ) by {
            assert(rest[i] == es[i]);
        }
        assert(p.node_ok(Node::Expr(es[es.len() - 1]), d1));
        lemma_operand_texts_deeper(p, names, rest, d1, d2);
        lemma_operand_text_deeper(p, names, es.last(), d1, d2);
    }
    assert(operand_texts(p, names, es, d2) =~= es.map_values(
        |e: ExprId| operand_text(p, names, e, d2),
    ));
}

/// An operand is spelled out: a local variable by its name where it has one, an item as
/// [`item_text`] has it, a literal with its value, a tuple as its items, in order, in round
/// brackets, an operator with its operand in round brackets, a projection as what it projects out
/// of, with the path after it. Anything else is written as its kind.
pub proof fn lemma_operand_text(p: PackageV, names: Map<usize, Seq<char>>, e: ExprId)
    requires
        p.node_ok(Node::Expr(e), p.node_depth()),
    ensures
        ({
            let depth = p.node_depth();
            let text = operand_text(p, names, e, depth);
            match p.exprs[e.0].kind {
                ExprKindV::Var(Res::Local(id), _) => text == if names.contains_key(id.0) {
                    names[id.0]
                } else {
                    "LocalVarId("@ + decimal(id.0 as nat) + ")"@
                },
                ExprKindV::Var(Res::Item(id), _) => text == item_text(p, id),
                ExprKindV::Field(record, path) => text == operand_text(p, names, record, depth)
                    + path_text(path),
                ExprKindV::Other(ExprKind::Lit(lit)) => text == lit_text(lit),
                ExprKindV::Other(ExprKind::Tuple(items)) => text == "("@ + joined(
                    items@.map_values(|item: ExprId| operand_text(p, names, item, depth)),
                    ", "@,
                ) + ")"@,
                ExprKindV::Other(ExprKind::UnOp(op, operand)) => text == op_text(op) + "("@
                    + operand_text(p, names, operand, depth) + ")"@,
                kind => text == short_text(kind),
            }
        }),
{
    let depth = p.node_depth();
    let node = Node::Expr(e);
    let inner = (depth - 1) as nat;
    match p.exprs[e.0].kind {
        ExprKindV::Field(record, _) => {
            assert(p.node_ok(p.parts(node)[0], inner));
            lemma_operand_text_deeper(p, names, record, inner, depth);
        },
        ExprKindV::Other(ExprKind::UnOp(_, operand)) => {
            assert(p.node_ok(p.parts(node)[0], inner));
            lemma_operand_text_deeper(p, names, operand, inner, depth);
        },
        ExprKindV::Other(ExprKind::Tuple(items)) => {
            assert forall|i: int| 0 <= i < items@.len() implies p.node_ok(
                Node::Expr(#[trigger] items@[i]),
                inner,
            ) by {
                assert(p.node_ok(p.parts(node)[i], inner));
            }
            lemma_operand_texts_deeper(p, names, items@, inner, depth);
        },
        _ => {},
    }
}

/// The calls among nodes: each of the nodes that is a call, in order, whatever is called, written
/// as what is called and the argument in round brackets.
pub proof fn lemma_call_texts(p: PackageV, nodes: Seq<Node>)
    ensures
        call_texts(p, nodes) == nodes.filter(
            |node: Node|
                node is Expr && (p.exprs[node->Expr_0.0].kind matches ExprKindV::Other(kind)
                    && kind is Call),
        ).map_values(
            |node: Node|
                {
                    let kind = p.exprs[node->Expr_0.0].kind->Other_0;
                    operand_text(p, package_names(p), kind->Call_0, p.node_depth()) + "("@
                        + operand_text(p, package_names(p), kind->Call_1, p.node_depth()) + ")"@
                },
        ),
    decreases nodes.len(),
{
    let kept = |node: Node|
        node is Expr && (p.exprs[node->Expr_0.0].kind matches ExprKindV::Other(kind)
            && kind is Call);
    let text = |node: Node|
        {
            let kind = p.exprs[node->Expr_0.0].kind->Other_0;
            operand_text(p, package_names(p), kind->Call_0, p.node_depth()) + "("@ + operand_text(
                p,
                package_names(p),
                kind->Call_1,
                p.node_depth(),
            ) + ")"@
        };
    reveal(Seq::filter);
    if nodes.len() > 0 {
        let rest = nodes.drop_last();
        lemma_call_texts(p, rest);
        assert(call_texts(p, rest) =~= rest.filter(kept).map_values(text));
        if kept(nodes.last()) {
            assert(nodes.filter(kept).map_values(text) =~= rest.filter(kept).map_values(text).push(
                text(nodes.last()),
            ));
        }
    }
    assert(call_texts(p, nodes) =~= nodes.filter(kept).map_values(text));
}

/// The projections among nodes: each of the nodes that is one, in order.
pub proof fn lemma_projection_texts(p: PackageV, nodes: Seq<Node>)
    ensures
        projection_texts(p, nodes) == nodes.filter(
            |node: Node| node is Expr && p.exprs[node->Expr_0.0].kind is Field,
        ).map_values(
            |node: Node| operand_text(p, package_names(p), node->Expr_0, p.node_depth()),
        ),
    decreases nodes.len(),
{
    let kept = |node: Node| node is Expr && p.exprs[node->Expr_0.0].kind is Field;
    let text = |node: Node| operand_text(p, package_names(p), node->Expr_0, p.node_depth());
    reveal(Seq::filter);
    if nodes.len() > 0 {
        let rest = nodes.drop_last();
        lemma_projection_texts(p, rest);
        assert(projection_texts(p, rest) =~= rest.filter(kept).map_values(text));
        if kept(nodes.last()) {
            assert(nodes.filter(kept).map_values(text) =~= rest.filter(kept).map_values(text).push(
                text(nodes.last()),
            ));
        }
    }
    assert(projection_texts(p, nodes) =~= nodes.filter(kept).map_values(text));
}

/// A variable has a name exactly if one of the patterns binds it, and it is the name in the last
/// one that does.
pub proof fn lemma_bound_names(pats: Map<usize, Pat>, ids: Seq<usize>, local: usize)
    ensures
        bound_names(pats, ids).contains_key(local) <==> exists|i: int|
            0 <= i < ids.len() && (pats[#[trigger] ids[i]].kind matches PatKind::Bind(ident)
                && ident.id.0 == local),
        forall|i: int|
            0 <= i < ids.len() && (pats[#[trigger] ids[i]].kind matches PatKind::Bind(ident)
                && ident.id.0 == local) && (forall|j: int|
                i < j < ids.len() ==> !(pats[#[trigger] ids[j]].kind matches PatKind::Bind(other)
                    && other.id.0 == local)) ==> bound_names(pats, ids)[local]
                == pats[ids[i]].kind->Bind_0.name@,
    decreases ids.len(),
{
    if ids.len() > 0 {
        let rest = ids.drop_last();
        lemma_bound_names(pats, rest, local);
        let last = ids.len() - 1;
        assert(ids[last] == ids.last());
        assert forall|i: int| 0 <= i < rest.len() implies rest[i] == #[trigger] ids[i] by {}
        if bound_names(pats, rest).contains_key(local) {
            let i = choose|i: int|
                0 <= i < rest.len() && (pats[#[trigger] rest[i]].kind matches PatKind::Bind(ident)
                    && ident.id.0 == local);
            assert(ids[i] == rest[i]);
        }
        assert forall|i: int|
            0 <= i < ids.len() && (pats[#[trigger] ids[i]].kind matches PatKind::Bind(ident)
                && ident.id.0 == local) && (forall|j: int|
                i < j < ids.len() ==> !(pats[#[trigger] ids[j]].kind matches PatKind::Bind(other)
                    && other.id.0 == local)) implies bound_names(pats, ids)[local]
            == pats[ids[i]].kind->Bind_0.name@ by {
            if i < last {
                assert(rest[i] == ids[i]);
                assert forall|j: int| i < j < rest.len() implies !(pats[
                    #[trigger] rest[j]
                ].kind matches PatKind::Bind(other) && other.id.0 == local) by {
                    assert(rest[j] == ids[j]);
                }
            }
        }
    }
}

/// The callable of a name is the one with the smallest item number among those that have it.
pub proof fn lemma_callable_named(p: PackageV, name: Seq<char>)
    ensures
        callable_named(p, name) is None <==> (forall|item: usize| #[trigger]
            p.items.contains_key(item) ==> !(p.items[item].kind matches ItemKind::Callable(decl)
                && decl.name.name@ == name)),
        forall|item: usize| #[trigger]
            p.items.contains_key(item) && (p.items[item].kind matches ItemKind::Callable(decl)
                && decl.name.name@ == name) && (forall|other: usize|
                other < item && #[trigger] p.items.contains_key(other) ==> !(
                p.items[other].kind matches ItemKind::Callable(decl) && decl.name.name@ == name))
                ==> callable_named(p, name) == Some(*p.items[item].kind->Callable_0),
{
    let items = keys_in_order(p.items.dom());
    lemma_keys_below(p.items.dom(), usize::MAX as nat + 1);
    lemma_first_named(p, items, name);
    assert forall|item: usize| #[trigger] p.items.contains_key(item) implies items.contains(
        item,
    ) by {}
    assert forall|i: int| 0 <= i < items.len() implies p.items.contains_key(
        #[trigger] items[i],
    ) by {
        assert(items.contains(items[i]));
    }
    assert forall|item: usize| #[trigger]
        p.items.contains_key(item) && (p.items[item].kind matches ItemKind::Callable(decl)
            && decl.name.name@ == name) implies callable_named(p, name) is Some by {
        assert(items[items.index_of(item)] == item);
    }
    assert forall|item: usize| #[trigger]
        p.items.contains_key(item) && (p.items[item].kind matches ItemKind::Callable(decl)
            && decl.name.name@ == name) && (forall|other: usize|
            other < item && #[trigger] p.items.contains_key(other) ==> !(
            p.items[other].kind matches ItemKind::Callable(decl) && decl.name.name@
                == name)) implies callable_named(p, name) == Some(
        *p.items[item].kind->Callable_0,
    ) by {
        let i = items.index_of(item);
        assert(items[i] == item);
        assert forall|j: int| 0 <= j < i implies !(p.items[
            #[trigger] items[j]
        ].kind matches ItemKind::Callable(decl) && decl.name.name@ == name) by {
            assert(items[j] < items[i]);
            assert(p.items.contains_key(items[j]));
        }
    }
    if callable_named(p, name) is Some {
        let i = choose|i: int|
            0 <= i < items.len() && (p.items[
                #[trigger] items[i]
            ].kind matches ItemKind::Callable(decl) && decl.name.name@ == name);
        assert(p.items.contains_key(items[i]));
    }
}

proof fn lemma_first_named(p: PackageV, items: Seq<usize>, name: Seq<char>)
    ensures
        first_named(p, items, name) is Some <==> exists|i: int|
            0 <= i < items.len() && (p.items[
                #[trigger] items[i]
            ].kind matches ItemKind::Callable(decl) && decl.name.name@ == name),
        forall|i: int|
            0 <= i < items.len() && (p.items[
                #[trigger] items[i]
            ].kind matches ItemKind::Callable(decl) && decl.name.name@ == name) && (forall|j: int|
                0 <= j < i ==> !(p.items[
                    #[trigger] items[j]
                ].kind matches ItemKind::Callable(decl) && decl.name.name@ == name))
                ==> first_named(p, items, name) == Some(*p.items[items[i]].kind->Callable_0),
    decreases items.len(),
{
    if items.len() > 0 {
        let rest = items.drop_last();
        let last = items.len() - 1;
        lemma_first_named(p, rest, name);
        assert(items[last] == items.last());
        if first_named(p, rest, name) is Some {
            let i = choose|i: int|
                0 <= i < rest.len() && (p.items[
                    #[trigger] rest[i]
                ].kind matches ItemKind::Callable(decl) && decl.name.name@ == name);
            assert(items[i] == rest[i]);
        }
        assert forall|i: int|
            0 <= i < items.len() && (p.items[
                #[trigger] items[i]
            ].kind matches ItemKind::Callable(decl) && decl.name.name@
                == name) implies first_named(p, items, name) is Some by {
            if i < last {
                assert(rest[i] == items[i]);
            }
        }
        assert forall|i: int|
            0 <= i < items.len() && (p.items[
                #[trigger] items[i]
            ].kind matches ItemKind::Callable(decl) && decl.name.name@ == name) && (forall|j: int|
                0 <= j < i ==> !(p.items[
                    #[trigger] items[j]
                ].kind matches ItemKind::Callable(decl) && decl.name.name@
                    == name)) implies first_named(p, items, name) == Some(
            *p.items[items[i]].kind->Callable_0,
        ) by {
            if i < last {
                assert(rest[i] == items[i]);
                assert forall|j: int| 0 <= j < i implies !(p.items[
                    #[trigger] rest[j]
                ].kind matches ItemKind::Callable(decl) && decl.name.name@ == name) by {
                    assert(rest[j] == items[j]);
                }
            } else if first_named(p, rest, name) is Some {
                let j = choose|j: int|
                    0 <= j < rest.len() && (p.items[
                        #[trigger] rest[j]
                    ].kind matches ItemKind::Callable(decl) && decl.name.name@ == name);
                assert(items[j] == rest[j]);
            }
        }
    }
}

} // verus!
