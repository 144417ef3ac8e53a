//! What the probes into callables come down to.

use vstd::prelude::*;

use crate::fir::{
    BlockId, CallableDecl, CallableImpl, ExprId, ExprKind, ExprKindV, Functor, ItemKind,
    LocalItemId, LocalVarId, Mutability, PackageId, PackageV, Pat, PatId, PatKind, Res, StmtId,
    StmtKind, StoreItemId, TyV, UnOp,
};
use crate::probes::{
    all_binding_names, binding_named, binding_names, body_block, bound_call, callable_text,
    callable_texts, closure_items, closure_targets, direct_call_arg, direct_fields,
    first_binding_named, first_functor_call_arg, functor_call_arg, is_projection, local_lines,
    nested_input_binding, only_inner_block, payload_block, target_names, with_shared_inner,
};
use crate::reachability::callable_names;
use crate::shapes::{item_text, pat_text};
use crate::text::joined;
use crate::tuple_destructuring::{leaves, leaves_of, LeafV};
use crate::walk::{pat_ok, Node};

verus! {

/// The name that a pattern binds.
pub open spec fn name_of(pats: Map<usize, Pat>, id: PatId) -> Seq<char> {
    pats[id.0].kind->Bind_0.name@
}

/// The names that a pattern binds are those of its variables, from left to right.
pub proof fn lemma_binding_names(pats: Map<usize, Pat>, id: PatId, path: Seq<usize>, depth: nat)
    requires
        pat_ok(pats, id, depth),
    ensures
        binding_names(pats, id, depth) == leaves(pats, id, path, depth).map_values(
            |leaf: LeafV| name_of(pats, leaf.pat),
        ),
    decreases depth, 0nat,
{
    match pats[id.0].kind {
        PatKind::Tuple(subs) => {
            lemma_all_binding_names(pats, subs@, path, (depth - 1) as nat);
        },
        _ => {},
    }
    assert(binding_names(pats, id, depth) =~= leaves(pats, id, path, depth).map_values(
        |leaf: LeafV| name_of(pats, leaf.pat),
    ));
}

proof fn lemma_all_binding_names(
    pats: Map<usize, Pat>,
    ids: Seq<PatId>,
    path: Seq<usize>,
    depth: nat,
)
    requires
        forall|i: int| 0 <= i < ids.len() ==> pat_ok(pats, #[trigger] ids[i], depth),
    ensures
        all_binding_names(pats, ids, depth) == leaves_of(pats, ids, path, depth).map_values(
            |leaf: LeafV| name_of(pats, leaf.pat),
        ),
    decreases depth, ids.len(),
{
    if ids.len() > 0 {
        let rest = ids.drop_last();
        let last = path.push((ids.len() - 1) as usize);
        assert forall|i: int| 0 <= i < rest.len() implies pat_ok(
            pats,
            #[trigger] rest[i],
            depth,
        ) by {
            assert(rest[i] == ids[i]);
        }
        assert(pat_ok(pats, ids[ids.len() - 1], depth));
        lemma_all_binding_names(pats, rest, path, depth);
        lemma_binding_names(pats, ids.last(), last, depth);
    }
    assert(all_binding_names(pats, ids, depth) =~= leaves_of(pats, ids, path, depth).map_values(
        |leaf: LeafV| name_of(pats, leaf.pat),
    ));
}

/// Whether `found` is the variable of the first of the leaves with that name.
pub open spec fn is_first_of_name(
    pats: Map<usize, Pat>,
    ls: Seq<LeafV>,
    name: Seq<char>,
    found: Option<LocalVarId>,
) -> bool {
    match found {
        Some(id) => exists|i: int|
            {
                &&& 0 <= i < ls.len()
                &&& name_of(pats, (#[trigger] ls[i]).pat) == name
                &&& pats[ls[i].pat.0].kind->Bind_0.id == id
                &&& forall|j: int| 0 <= j < i ==> name_of(pats, (#[trigger] ls[j]).pat) != name
            },
        None => forall|i: int| 0 <= i < ls.len() ==> name_of(pats, (#[trigger] ls[i]).pat) != name,
    }
}

/// The variable of a name that a pattern binds is the first one from the left that has it, at
/// whatever depth; there is none exactly if no variable of the pattern has it.
pub proof fn lemma_binding_named(
    pats: Map<usize, Pat>,
    id: PatId,
    path: Seq<usize>,
    name: Seq<char>,
    depth: nat,
)
    requires
        pat_ok(pats, id, depth),
    ensures
        is_first_of_name(
            pats,
            leaves(pats, id, path, depth),
            name,
            binding_named(pats, id, name, depth),
        ),
    decreases depth, 0nat,
{
    match pats[id.0].kind {
        PatKind::Tuple(subs) => {
            lemma_first_binding_named(pats, subs@, path, name, (depth - 1) as nat);
        },
        PatKind::Bind(_) => {
            let ls = leaves(pats, id, path, depth);
            assert(ls[0].pat == id);
            assert(ls.len() == 1);
        },
        PatKind::Discard => {},
    }
}

proof fn lemma_first_binding_named(
    pats: Map<usize, Pat>,
    ids: Seq<PatId>,
    path: Seq<usize>,
    name: Seq<char>,
    depth: nat,
)
    requires
        forall|i: int| 0 <= i < ids.len() ==> pat_ok(pats, #[trigger] ids[i], depth),
    ensures
        is_first_of_name(
            pats,
            leaves_of(pats, ids, path, depth),
            name,
            first_binding_named(pats, ids, name, depth),
        ),
    decreases depth, ids.len(),
{
    if ids.len() > 0 {
        let rest = ids.drop_last();
        let last = path.push((ids.len() - 1) as usize);
        assert forall|i: int| 0 <= i < rest.len() implies pat_ok(
            pats,
            #[trigger] rest[i],
            depth,
        ) by {
            assert(rest[i] == ids[i]);
        }
        assert(pat_ok(pats, ids[ids.len() - 1], depth));
        lemma_first_binding_named(pats, rest, path, name, depth);
        lemma_binding_named(pats, ids.last(), last, name, depth);
        let xs = leaves_of(pats, rest, path, depth);
        let ys = leaves(pats, ids.last(), last, depth);
        let all = leaves_of(pats, ids, path, depth);
        assert(all == xs + ys);
        assert forall|i: int| 0 <= i < xs.len() implies #[trigger] all[i] == xs[i] by {}
        assert forall|i: int| xs.len() <= i < all.len() implies #[trigger] all[i] == ys[i
            - xs.len()] by {}
        match first_binding_named(pats, rest, name, depth) {
            Some(id) => {
                let i = choose|i: int|
                    {
                        &&& 0 <= i < xs.len()
                        &&& name_of(pats, (#[trigger] xs[i]).pat) == name
                        &&& pats[xs[i].pat.0].kind->Bind_0.id == id
                        &&& forall|j: int|
                            0 <= j < i ==> name_of(pats, (#[trigger] xs[j]).pat) != name
                    };
                assert(all[i] == xs[i]);
            },
            None => {
                if let Some(id) = binding_named(pats, ids.last(), name, depth) {
                    let i = choose|i: int|
                        {
                            &&& 0 <= i < ys.len()
                            &&& name_of(pats, (#[trigger] ys[i]).pat) == name
                            &&& pats[ys[i].pat.0].kind->Bind_0.id == id
                            &&& forall|j: int|
                                0 <= j < i ==> name_of(pats, (#[trigger] ys[j]).pat) != name
                        };
                    assert(all[xs.len() + i] == ys[i]);
                    assert forall|j: int| 0 <= j < xs.len() + i implies name_of(
                        pats,
                        (#[trigger] all[j]).pat,
                    ) != name by {
                        if j < xs.len() {
                            assert(all[j] == xs[j]);
                        } else {
                            assert(all[j] == ys[j - xs.len()]);
                        }
                    }
                }
            },
        }
    }
}

/// The block of a callable is the body, not another specialization; only an intrinsic has none.
pub proof fn lemma_body_block(implementation: CallableImpl)
    ensures
        body_block(implementation) is None <==> implementation is Intrinsic,
        implementation matches CallableImpl::Spec(specs) ==> body_block(implementation) == Some(
            specs.body.block,
        ),
        implementation matches CallableImpl::SimulatableIntrinsic(spec) ==> body_block(
            implementation,
        ) == Some(spec.block),
{
}

/// An expression calls an item directly exactly if it is a call whose callee is an item with that
/// text, and what is found is its argument.
pub proof fn lemma_direct_call_arg(p: PackageV, e: ExprId, name: Seq<char>, arg: ExprId)
    ensures
        direct_call_arg(p, e, name) == Some(arg) <==> exists|callee: ExprId|
            #![trigger p.exprs[callee.0]]
            p.exprs[e.0].kind == ExprKindV::Other(ExprKind::Call(callee, arg)) && (p.exprs[
                callee.0
            ].kind matches ExprKindV::Var(Res::Item(id), _) && item_text(p, id) == name),
{
    if let ExprKindV::Other(ExprKind::Call(callee, _)) = p.exprs[e.0].kind {
        let known = p.exprs[callee.0];
        assert(known == p.exprs[callee.0]);
    }
}

/// An expression calls an item under a functor exactly if it is a call whose callee is that functor
/// applied to an item with that text, and what is found is its argument.
pub proof fn lemma_functor_call_arg(
    p: PackageV,
    e: ExprId,
    functor: Functor,
    name: Seq<char>,
    arg: ExprId,
)
    ensures
        functor_call_arg(p, e, functor, name) == Some(arg) <==> exists|
            callee: ExprId,
            inner: ExprId,
        |
            #![trigger p.exprs[callee.0], p.exprs[inner.0]]
            {
                &&& p.exprs[e.0].kind == ExprKindV::Other(ExprKind::Call(callee, arg))
                &&& p.exprs[callee.0].kind == ExprKindV::Other(
                    ExprKind::UnOp(UnOp::Functor(functor), inner),
                )
                &&& p.exprs[inner.0].kind matches ExprKindV::Var(Res::Item(id), _)
                    && item_text(p, id) == name
            },
{
    if let ExprKindV::Other(ExprKind::Call(callee, _)) = p.exprs[e.0].kind {
        if let ExprKindV::Other(ExprKind::UnOp(UnOp::Functor(_), inner)) = p.exprs[
            callee.0
        ].kind {
            let (outer, item) = (p.exprs[callee.0], p.exprs[inner.0]);
            assert(outer == p.exprs[callee.0] && item == p.exprs[inner.0]);
        }
    }
}

/// The argument of a functor call among nodes is that of the first one.
pub proof fn lemma_first_functor_call_arg(
    p: PackageV,
    nodes: Seq<Node>,
    functor: Functor,
    name: Seq<char>,
)
    ensures
        first_functor_call_arg(p, nodes, functor, name) is None <==> (forall|e: ExprId| #[trigger]
            nodes.contains(Node::Expr(e)) ==> functor_call_arg(p, e, functor, name) is None),
        forall|i: int|
            {
                &&& 0 <= i < nodes.len()
                &&& #[trigger] nodes[i] is Expr
                &&& functor_call_arg(p, nodes[i]->Expr_0, functor, name) is Some
                &&& forall|j: int|
                    0 <= j < i && #[trigger] nodes[j] is Expr ==> functor_call_arg(
                        p,
                        nodes[j]->Expr_0,
                        functor,
                        name,
                    ) is None
            } ==> first_functor_call_arg(p, nodes, functor, name) == functor_call_arg(
                p,
                nodes[i]->Expr_0,
                functor,
                name,
            ),
    decreases nodes.len(),
{
    if nodes.len() > 0 {
        let rest = nodes.drop_last();
        let last = nodes.len() - 1;
        lemma_first_functor_call_arg(p, rest, functor, name);
        assert(nodes[last] == nodes.last());
        assert forall|e: ExprId| #[trigger] rest.contains(Node::Expr(e)) implies nodes.contains(
            Node::Expr(e),
        ) by {
            assert(nodes[rest.index_of(Node::Expr(e))] == Node::Expr(e));
        }
        assert forall|e: ExprId|
            nodes.last() != Node::Expr(e) && #[trigger] nodes.contains(
                Node::Expr(e),
            ) implies rest.contains(Node::Expr(e)) by {
            assert(rest[nodes.index_of(Node::Expr(e))] == Node::Expr(e));
        }
        if let Node::Expr(e) = nodes.last() {
            assert(nodes.contains(Node::Expr(e)));
        }
        if first_functor_call_arg(p, rest, functor, name) is Some {
            let e = choose|e: ExprId| #[trigger]
                rest.contains(Node::Expr(e)) && functor_call_arg(p, e, functor, name) is Some;
            assert(nodes.contains(Node::Expr(e)));
        }
        assert forall|i: int|
            {
                &&& 0 <= i < nodes.len()
                &&& #[trigger] nodes[i] is Expr
                &&& functor_call_arg(p, nodes[i]->Expr_0, functor, name) is Some
                &&& forall|j: int|
                    0 <= j < i && #[trigger] nodes[j] is Expr ==> functor_call_arg(
                        p,
                        nodes[j]->Expr_0,
                        functor,
                        name,
                    ) is None
            } implies first_functor_call_arg(p, nodes, functor, name) == functor_call_arg(
            p,
            nodes[i]->Expr_0,
            functor,
            name,
        ) by {
            if i < last {
                assert(rest[i] == nodes[i]);
                assert forall|j: int| 0 <= j < i && #[trigger] rest[j] is Expr implies
                    functor_call_arg(p, rest[j]->Expr_0, functor, name) is None by {
                    assert(rest[j] == nodes[j]);
                }
                assert(rest.contains(Node::Expr(nodes[i]->Expr_0)));
            } else if first_functor_call_arg(p, rest, functor, name) is Some {
                let e = choose|e: ExprId| #[trigger]
                    rest.contains(Node::Expr(e)) && functor_call_arg(p, e, functor, name) is Some;
                let j = rest.index_of(Node::Expr(e));
                assert(nodes[j] == Node::Expr(e));
            }
        }
    }
}

/// A block is nothing but another block exactly if its one statement is the expression of that
/// block, without a semicolon.
pub proof fn lemma_only_inner_block(p: PackageV, block: BlockId, inner: BlockId)
    ensures
        only_inner_block(p, block) == Some(inner) <==> exists|s: StmtId, e: ExprId|
            #![trigger p.stmts[s.0], p.exprs[e.0]]
            {
                &&& p.blocks[block.0].stmts == seq![s]
                &&& p.stmts[s.0].kind == StmtKind::Expr(e)
                &&& p.exprs[e.0].kind == ExprKindV::Other(ExprKind::Block(inner))
            },
{
    let stmts = p.blocks[block.0].stmts;
    if only_inner_block(p, block) is Some {
        let s = stmts[0];
        let e = p.stmts[s.0].kind->Expr_0;
        assert(stmts =~= seq![s]);
        let (stmt, expr) = (p.stmts[s.0], p.exprs[e.0]);
        assert(stmt == p.stmts[s.0] && expr == p.exprs[e.0]);
    }
}

/// A block binds a call and gives an expression exactly if it has two statements: an immutable
/// `let` of one variable, to a direct call of the item, and an expression.
pub proof fn lemma_bound_call(
    p: PackageV,
    block: BlockId,
    name: Seq<char>,
    local: LocalVarId,
    result: ExprId,
)
    ensures
        bound_call(p, block, name) == Some((local, result)) <==> {
            let stmts = p.blocks[block.0].stmts;
            &&& stmts.len() == 2
            &&& p.stmts[stmts[1].0].kind == StmtKind::Expr(result)
            &&& p.stmts[stmts[0].0].kind matches StmtKind::Local(mutability, pat, init)
                && p.pats[pat.0].kind matches PatKind::Bind(ident) && ident.id == local
                && mutability == Mutability::Immutable && direct_call_arg(p, init, name) is Some
        },
{
}

/// The payload of a controlled call is the block that is the second of two items, where the first
/// is an array.
pub proof fn lemma_payload_block(p: PackageV, arg: ExprId, block: BlockId)
    ensures
        payload_block(p, arg) == Some(block) <==> (p.exprs[arg.0].kind matches ExprKindV::Other(
            ExprKind::Tuple(items),
        ) && p.exprs[items@[0].0].kind matches ExprKindV::Other(ExprKind::Array(_)) && items@.len()
            == 2 && p.exprs[items@[1].0].kind == ExprKindV::Other(ExprKind::Block(block))),
{
}

/// The direct projections out of a local variable among nodes: each node that projects something
/// out of a read of it, in order, with that read.
pub proof fn lemma_direct_fields(p: PackageV, nodes: Seq<Node>, local: LocalVarId)
    ensures
        direct_fields(p, nodes, local) == nodes.filter(
            |node: Node|
                node is Expr && (p.exprs[node->Expr_0.0].kind matches ExprKindV::Field(inner, path)
                    && p.exprs[inner.0].kind matches ExprKindV::Var(Res::Local(from), _) && from
                    == local && path.len() > 0),
        ).map_values(
            |node: Node| (node->Expr_0, p.exprs[node->Expr_0.0].kind->Field_0),
        ),
    decreases nodes.len(),
{
    let kept = |node: Node|
        node is Expr && (p.exprs[node->Expr_0.0].kind matches ExprKindV::Field(inner, path)
            && p.exprs[inner.0].kind matches ExprKindV::Var(Res::Local(from), _) && from == local
            && path.len() > 0);
    let pair = |node: Node| (node->Expr_0, p.exprs[node->Expr_0.0].kind->Field_0);
    reveal(Seq::filter);
    if nodes.len() > 0 {
        let rest = nodes.drop_last();
        lemma_direct_fields(p, rest, local);
        assert(direct_fields(p, rest, local) =~= rest.filter(kept).map_values(pair));
        if kept(nodes.last()) {
            assert(nodes.filter(kept).map_values(pair) =~= rest.filter(kept).map_values(pair).push(
                pair(nodes.last()),
            ));
        }
    }
    assert(direct_fields(p, nodes, local) =~= nodes.filter(kept).map_values(pair));
}

/// Afterwards the first two projections share the read of the first one: the one takes the first
/// element of its first element, the other the second. Nothing else changes.
pub proof fn lemma_with_shared_inner(p: PackageV, fields: Seq<(ExprId, ExprId)>)
    requires
        fields.len() >= 2,
        fields[0].0 != fields[1].0,
    ensures
        ({
            let q = with_shared_inner(p, fields);
            let (first, second) = (fields[0].0, fields[1].0);
            &&& q.exprs[first.0].kind == ExprKindV::Field(fields[0].1, seq![0, 0])
            &&& q.exprs[second.0].kind == ExprKindV::Field(fields[0].1, seq![0, 1])
            &&& q.exprs[first.0].id == p.exprs[first.0].id && q.exprs[second.0].id
                == p.exprs[second.0].id
            &&& q.exprs[first.0].ty == p.exprs[first.0].ty && q.exprs[second.0].ty
                == p.exprs[second.0].ty
            &&& forall|k: usize|
                k != first.0 && k != second.0 ==> #[trigger] q.exprs[k] == p.exprs[k]
            &&& q.items == p.items && q.entry == p.entry && q.blocks == p.blocks && q.stmts
                == p.stmts && q.pats == p.pats
        }),
{
    assert(fields[0].0.0 != fields[1].0.0);
}

/// The lines for the `let`s among statements: one for each `let`, in order, which says whether it
/// is mutable and what it binds.
pub proof fn lemma_local_lines(p: PackageV, stmts: Seq<StmtId>)
    ensures
        local_lines(p, stmts) == stmts.filter(
            |s: StmtId| p.stmts[s.0].kind is Local,
        ).map_values(
            |s: StmtId|
                (if p.stmts[s.0].kind->Local_0 == Mutability::Mutable {
                    "  local: mutable "@
                } else {
                    "  local: "@
                }) + pat_text(p.pats, p.stmts[s.0].kind->Local_1, p.pat_depth()),
        ),
    decreases stmts.len(),
{
    let kept = |s: StmtId| p.stmts[s.0].kind is Local;
    let text = |s: StmtId|
        (if p.stmts[s.0].kind->Local_0 == Mutability::Mutable {
            "  local: mutable "@
        } else {
            "  local: "@
        }) + pat_text(p.pats, p.stmts[s.0].kind->Local_1, p.pat_depth());
    reveal(Seq::filter);
    if stmts.len() > 0 {
        let rest = stmts.drop_last();
        lemma_local_lines(p, rest);
        assert(local_lines(p, rest) =~= rest.filter(kept).map_values(text));
        if kept(stmts.last()) {
            assert(stmts.filter(kept).map_values(text) =~= rest.filter(kept).map_values(text).push(
                text(stmts.last()),
            ));
        }
    }
    assert(local_lines(p, stmts) =~= stmts.filter(kept).map_values(text));
}

/// The text of a callable is its name and its input on the first line, and after it a line for each
/// `let` of its body, whatever the body is made of besides.
pub proof fn lemma_callable_text(p: PackageV, decl: CallableDecl)
    ensures
        ({
            let first = "Callable "@ + decl.name.name@ + ": input="@ + pat_text(
                p.pats,
                decl.input,
                p.pat_depth(),
            );
            &&& decl.implementation matches CallableImpl::Spec(specs) ==> callable_text(p, decl)
                == joined(seq![first] + local_lines(p, p.blocks[specs.body.block.0].stmts), "\n"@)
            &&& !(decl.implementation is Spec) ==> callable_text(p, decl) == first
        }),
{
    let first = "Callable "@ + decl.name.name@ + ": input="@ + pat_text(
        p.pats,
        decl.input,
        p.pat_depth(),
    );
    if !(decl.implementation is Spec) {
        assert(seq![first] + Seq::<Seq<char>>::empty() =~= seq![first]);
    }
}

/// The callables among items: each that is a callable and reachable, in order.
pub proof fn lemma_callable_texts(
    p: PackageV,
    package: PackageId,
    reachable: Set<StoreItemId>,
    items: Seq<usize>,
)
    ensures
        callable_texts(p, package, reachable, items) == items.filter(
            |item: usize|
                p.items[item].kind is Callable && reachable.contains(
                    StoreItemId { package, item: LocalItemId(item) },
                ),
        ).map_values(|item: usize| callable_text(p, *p.items[item].kind->Callable_0)),
    decreases items.len(),
{
    let kept = |item: usize|
        p.items[item].kind is Callable && reachable.contains(
            StoreItemId { package, item: LocalItemId(item) },
        );
    let text = |item: usize| callable_text(p, *p.items[item].kind->Callable_0);
    reveal(Seq::filter);
    if items.len() > 0 {
        let rest = items.drop_last();
        lemma_callable_texts(p, package, reachable, rest);
        assert(callable_texts(p, package, reachable, rest) =~= rest.filter(kept).map_values(text));
        if kept(items.last()) {
            assert(items.filter(kept).map_values(text) =~= rest.filter(kept).map_values(text).push(
                text(items.last()),
            ));
        }
    }
    assert(callable_texts(p, package, reachable, items) =~= items.filter(kept).map_values(text));
}

/// The items behind the closures among nodes: one for each closure, in order.
pub proof fn lemma_closure_items(p: PackageV, nodes: Seq<Node>)
    ensures
        closure_items(p, nodes) == nodes.filter(
            |node: Node|
                node is Expr && (p.exprs[node->Expr_0.0].kind matches ExprKindV::Other(kind)
                    && kind is Closure),
        ).map_values(|node: Node| p.exprs[node->Expr_0.0].kind->Other_0->Closure_1.0),
    decreases nodes.len(),
{
    let kept = |node: Node|
        node is Expr && (p.exprs[node->Expr_0.0].kind matches ExprKindV::Other(kind)
            && kind is Closure);
    let item = |node: Node| p.exprs[node->Expr_0.0].kind->Other_0->Closure_1.0;
    reveal(Seq::filter);
    if nodes.len() > 0 {
        let rest = nodes.drop_last();
        lemma_closure_items(p, rest);
        assert(closure_items(p, rest) =~= rest.filter(kept).map_values(item));
        if kept(nodes.last()) {
            assert(nodes.filter(kept).map_values(item) =~= rest.filter(kept).map_values(item).push(
                item(nodes.last()),
            ));
        }
    }
    assert(closure_items(p, nodes) =~= nodes.filter(kept).map_values(item));
}

/// An item stands behind a closure of the given items exactly if one of them is a reachable
/// callable in which a closure over it is met.
pub proof fn lemma_closure_targets(
    p: PackageV,
    package: PackageId,
    reachable: Set<StoreItemId>,
    items: Seq<usize>,
    target: usize,
)
    ensures
        closure_targets(p, package, reachable, items).contains(target) <==> exists|
            i: int,
            e: ExprId,
        |
            #![trigger items[i], p.exprs[e.0]]
            {
                &&& 0 <= i < items.len()
                &&& reachable.contains(StoreItemId { package, item: LocalItemId(items[i]) })
                &&& p.items[items[i]].kind matches ItemKind::Callable(decl)
                    && p.callable_walk(decl.implementation).contains(Node::Expr(e))
                &&& p.exprs[e.0].kind matches ExprKindV::Other(ExprKind::Closure(_, item))
                    && item.0 == target
            },
    decreases items.len(),
{
    if items.len() > 0 {
        let rest = items.drop_last();
        let last = items.len() - 1;
        lemma_closure_targets(p, package, reachable, rest, target);
        assert(items[last] == items.last());
        let before = closure_targets(p, package, reachable, rest);
        let all = closure_targets(p, package, reachable, items);
        assert forall|i: int| 0 <= i < rest.len() implies rest[i] == #[trigger] items[i] by {}
        if before.contains(target) {
            assert(all[before.index_of(target)] == target);
            let (i, e) = choose|i: int, e: ExprId|
                #![trigger rest[i], p.exprs[e.0]]
                {
                    &&& 0 <= i < rest.len()
                    &&& reachable.contains(StoreItemId { package, item: LocalItemId(rest[i]) })
                    &&& p.items[rest[i]].kind matches ItemKind::Callable(decl)
                        && p.callable_walk(decl.implementation).contains(Node::Expr(e))
                    &&& p.exprs[e.0].kind matches ExprKindV::Other(ExprKind::Closure(_, item))
                        && item.0 == target
                };
            let (item, expr) = (items[i], p.exprs[e.0]);
            assert(item == items[i] && expr == p.exprs[e.0]);
        }
        if let ItemKind::Callable(decl) = p.items[items.last()].kind {
            let nodes = p.callable_walk(decl.implementation);
            lemma_closure_found(p, nodes, target);
            let inside = closure_items(p, nodes);
            if reachable.contains(StoreItemId { package, item: LocalItemId(items.last()) }) {
                assert(all == before + inside);
                if inside.contains(target) {
                    assert(all[before.len() + inside.index_of(target)] == target);
                }
                if all.contains(target) && !before.contains(target) {
                    let i = all.index_of(target);
                    if i < before.len() {
                        assert(before[i] == target);
                    }
                    assert(inside[i - before.len()] == target);
                }
            }
        }
    }
}

proof fn lemma_closure_found(p: PackageV, nodes: Seq<Node>, target: usize)
    ensures
        closure_items(p, nodes).contains(target) <==> exists|e: ExprId|
            nodes.contains(Node::Expr(e)) && (#[trigger] p.exprs[e.0].kind matches ExprKindV::Other(
                ExprKind::Closure(_, item),
            ) && item.0 == target),
    decreases nodes.len(),
{
    if nodes.len() > 0 {
        let rest = nodes.drop_last();
        lemma_closure_found(p, rest, target);
        let before = closure_items(p, rest);
        let all = closure_items(p, nodes);
        assert forall|node: Node| #[trigger] rest.contains(node) implies nodes.contains(node) by {
            assert(nodes[rest.index_of(node)] == node);
        }
        assert forall|node: Node|
            node != nodes.last() && #[trigger] nodes.contains(node) implies rest.contains(node) by {
            assert(rest[nodes.index_of(node)] == node);
        }
        assert(nodes[nodes.len() - 1] == nodes.last());
        if before.contains(target) {
            assert(all[before.index_of(target)] == target);
        }
        if let Node::Expr(e) = nodes.last() {
            let kind = p.exprs[e.0].kind;
            if all.len() > before.len() && all.last() == target {
                assert(all[all.len() - 1] == target);
            }
        }
        if all.contains(target) && !before.contains(target) {
            let i = all.index_of(target);
            if i < before.len() {
                assert(before[i] == target);
            }
            assert(i == before.len());
        }
    }
}

/// The names of targets among items: each that is a callable and a target, in order, however often
/// it is one.
pub proof fn lemma_target_names(p: PackageV, targets: Seq<usize>, items: Seq<usize>)
    ensures
        target_names(p, targets, items) == items.filter(
            |item: usize| p.items[item].kind is Callable && targets.contains(item),
        ).map_values(|item: usize| p.items[item].kind->Callable_0.name.name@),
    decreases items.len(),
{
    let kept = |item: usize| p.items[item].kind is Callable && targets.contains(item);
    let name = |item: usize| p.items[item].kind->Callable_0.name.name@;
    reveal(Seq::filter);
    if items.len() > 0 {
        let rest = items.drop_last();
        lemma_target_names(p, targets, rest);
        assert(target_names(p, targets, rest) =~= rest.filter(kept).map_values(name));
        if kept(items.last()) {
            assert(items.filter(kept).map_values(name) =~= rest.filter(kept).map_values(name).push(
                name(items.last()),
            ));
        }
    }
    assert(target_names(p, targets, items) =~= items.filter(kept).map_values(name));
}

/// The names of callables among items: each that is a callable and reachable, in order.
pub proof fn lemma_callable_names(
    p: PackageV,
    package: PackageId,
    reachable: Set<StoreItemId>,
    items: Seq<usize>,
)
    ensures
        callable_names(p, package, reachable, items) == items.filter(
            |item: usize|
                p.items[item].kind is Callable && reachable.contains(
                    StoreItemId { package, item: LocalItemId(item) },
                ),
        ).map_values(|item: usize| p.items[item].kind->Callable_0.name.name@),
    decreases items.len(),
{
    let kept = |item: usize|
        p.items[item].kind is Callable && reachable.contains(
            StoreItemId { package, item: LocalItemId(item) },
        );
    let name = |item: usize| p.items[item].kind->Callable_0.name.name@;
    reveal(Seq::filter);
    if items.len() > 0 {
        let rest = items.drop_last();
        lemma_callable_names(p, package, reachable, rest);
        assert(callable_names(p, package, reachable, rest) =~= rest.filter(kept).map_values(name));
        if kept(items.last()) {
            assert(items.filter(kept).map_values(name) =~= rest.filter(kept).map_values(name).push(
                name(items.last()),
            ));
        }
    }
    assert(callable_names(p, package, reachable, items) =~= items.filter(kept).map_values(name));
}

/// An input has a nested variable of a name exactly if its type is a tuple that starts with a tuple
/// and its pattern binds that name.
pub proof fn lemma_nested_input_binding(
    p: PackageV,
    decl: CallableDecl,
    name: Seq<char>,
    local: LocalVarId,
)
    ensures
        nested_input_binding(p, decl, name) == Some(local) <==> {
            &&& p.pats[decl.input.0].ty@ matches TyV::Tuple(elems) && elems.len() > 0
                && elems[0] is Tuple
            &&& binding_named(p.pats, decl.input, name, p.pat_depth()) == Some(local)
        },
{
}

/// An expression projects out of a local variable along a path exactly if it is a projection along
/// that very path whose record is a read of that very variable.
pub proof fn lemma_is_projection(p: PackageV, e: ExprId, local: LocalVarId, path: Seq<usize>)
    ensures
        is_projection(p, e, local, path) <==> exists|base: ExprId|
            #![trigger p.exprs[base.0]]
            p.exprs[e.0].kind == ExprKindV::Field(base, path) && (p.exprs[
                base.0
            ].kind matches ExprKindV::Var(Res::Local(from), _) && from == local),
{
    if let ExprKindV::Field(base, _) = p.exprs[e.0].kind {
        let record = p.exprs[base.0];
        assert(record == p.exprs[base.0]);
    }
}

} // verus!
