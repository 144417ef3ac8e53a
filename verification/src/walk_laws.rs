//! What walking meets: every operand of every kind of expression, in source order, and through
//! that every item that a reachable callable names.

use vstd::prelude::*;

use crate::fir::{
    BlockId, CallableDecl, CallableImpl, ExprId, ExprKind, ExprKindV, ItemKind, PackageId, PackageV,
    Res, StmtId, StmtKind, StoreItemId, StringComponent,
};
use crate::preservation::{lemma_walk_all_contains, lemma_walk_contains};
use crate::reachability::{
    is_reachable, is_root, item_uses, lemma_reachable_least, lemma_root_reachable,
    lemma_step_reachable, nodes_name, reach_ok, reachable_set,
};
use crate::walk::{body_nodes, string_nodes, Node};

verus! {

proof fn lemma_string_nodes(parts: Seq<StringComponent>)
    ensures
        string_nodes(parts) == parts.filter(|c: StringComponent| c is Expr).map_values(
            |c: StringComponent| Node::Expr(c->Expr_0),
        ),
    decreases parts.len(),
{
    reveal(Seq::filter);
    if parts.len() > 0 {
        lemma_string_nodes(parts.drop_last());
        let kept = |c: StringComponent| c is Expr;
        let node = |c: StringComponent| Node::Expr(c->Expr_0);
        assert(parts.filter(kept) =~= if parts.last() is Expr {
            parts.drop_last().filter(kept).push(parts.last())
        } else {
            parts.drop_last().filter(kept)
        });
        if parts.last() is Expr {
            assert(parts.filter(kept).map_values(node) =~= parts.drop_last().filter(
                kept,
            ).map_values(node).push(node(parts.last())));
        }
        assert(string_nodes(parts) =~= parts.filter(kept).map_values(node));
    } else {
        assert(string_nodes(parts) =~= parts.filter(|c: StringComponent| c is Expr).map_values(
            |c: StringComponent| Node::Expr(c->Expr_0),
        ));
    }
}

/// The parts of an expression are the expressions and blocks that its fields hold, all of them,
/// in source order.
pub proof fn lemma_parts_of_expressions(p: PackageV, e: ExprId)
    ensures
        ({
            let parts = p.parts(Node::Expr(e));
            match p.exprs[e.0].kind {
                ExprKindV::Var(_, _) => parts.len() == 0,
                ExprKindV::Field(record, _) => parts == seq![Node::Expr(record)],
                ExprKindV::Other(kind) => match kind {
                    ExprKind::Array(items) | ExprKind::ArrayLit(items) | ExprKind::Tuple(
                        items,
                    ) => parts.len() == items@.len() && forall|i: int|
                        0 <= i < items@.len() ==> #[trigger] parts[i] == Node::Expr(items@[i]),
                    ExprKind::ArrayRepeat(value, size) => parts == seq![
                        Node::Expr(value),
                        Node::Expr(size),
                    ],
                    ExprKind::Assign(left, right) => parts == seq![
                        Node::Expr(left),
                        Node::Expr(right),
                    ],
                    ExprKind::AssignField(record, _, value) => parts == seq![
                        Node::Expr(record),
                        Node::Expr(value),
                    ],
                    ExprKind::AssignIndex(array, index, value) => parts == seq![
                        Node::Expr(array),
                        Node::Expr(index),
                        Node::Expr(value),
                    ],
                    ExprKind::AssignOp(_, left, right) => parts == seq![
                        Node::Expr(left),
                        Node::Expr(right),
                    ],
                    ExprKind::BinOp(_, left, right) => parts == seq![
                        Node::Expr(left),
                        Node::Expr(right),
                    ],
                    ExprKind::Block(block) => parts == seq![Node::Block(block)],
                    ExprKind::Call(callee, arg) => parts == seq![
                        Node::Expr(callee),
                        Node::Expr(arg),
                    ],
                    ExprKind::Closure(_, _) => parts.len() == 0,
                    ExprKind::Fail(message) => parts == seq![Node::Expr(message)],
                    ExprKind::Field(record, _) => parts == seq![Node::Expr(record)],
                    ExprKind::Hole => parts.len() == 0,
                    ExprKind::If(condition, body, Some(otherwise)) => parts == seq![
                        Node::Expr(condition),
                        Node::Expr(body),
                        Node::Expr(otherwise),
                    ],
                    ExprKind::If(condition, body, None) => parts == seq![
                        Node::Expr(condition),
                        Node::Expr(body),
                    ],
                    ExprKind::Index(array, index) => parts == seq![
                        Node::Expr(array),
                        Node::Expr(index),
                    ],
                    ExprKind::Lit(_) => parts.len() == 0,
                    ExprKind::Range(None, None, None) => parts.len() == 0,
                    ExprKind::Range(Some(start), None, None) => parts == seq![Node::Expr(start)],
                    ExprKind::Range(None, Some(step), None) => parts == seq![Node::Expr(step)],
                    ExprKind::Range(None, None, Some(end)) => parts == seq![Node::Expr(end)],
                    ExprKind::Range(Some(start), Some(step), None) => parts == seq![
                        Node::Expr(start),
                        Node::Expr(step),
                    ],
                    ExprKind::Range(Some(start), None, Some(end)) => parts == seq![
                        Node::Expr(start),
                        Node::Expr(end),
                    ],
                    ExprKind::Range(None, Some(step), Some(end)) => parts == seq![
                        Node::Expr(step),
                        Node::Expr(end),
                    ],
                    ExprKind::Range(Some(start), Some(step), Some(end)) => parts == seq![
                        Node::Expr(start),
                        Node::Expr(step),
                        Node::Expr(end),
                    ],
                    ExprKind::Return(value) => parts == seq![Node::Expr(value)],
                    ExprKind::String(components) => parts == components@.filter(
                        |c: StringComponent| c is Expr,
                    ).map_values(|c: StringComponent| Node::Expr(c->Expr_0)),
                    ExprKind::Struct(_, None, fields) => parts.len() == fields@.len() && forall|
                        i: int,
                    |
                        0 <= i < fields@.len() ==> #[trigger] parts[i] == Node::Expr(
                            fields@[i].value,
                        ),
                    ExprKind::Struct(_, Some(copied), fields) => parts.len() == fields@.len() + 1
                        && parts[0] == Node::Expr(copied) && forall|i: int|
                        1 <= i <= fields@.len() ==> #[trigger] parts[i] == Node::Expr(
                            fields@[i - 1].value,
                        ),
                    ExprKind::UnOp(_, operand) => parts == seq![Node::Expr(operand)],
                    ExprKind::UpdateField(record, _, value) => parts == seq![
                        Node::Expr(record),
                        Node::Expr(value),
                    ],
                    ExprKind::UpdateIndex(array, index, value) => parts == seq![
                        Node::Expr(array),
                        Node::Expr(index),
                        Node::Expr(value),
                    ],
                    ExprKind::Var(_, _) => parts.len() == 0,
                    ExprKind::While(condition, body) => parts == seq![
                        Node::Expr(condition),
                        Node::Block(body),
                    ],
                },
            }
        }),
{
    let parts = p.parts(Node::Expr(e));
    if let ExprKindV::Other(kind) = p.exprs[e.0].kind {
        match kind {
            ExprKind::String(components) => {
                lemma_string_nodes(components@);
                let kept = |c: StringComponent| c is Expr;
                let node = |c: StringComponent| Node::Expr(c->Expr_0);
                assert(parts =~= components@.filter(|c: StringComponent| c is Expr).map_values(
                    |c: StringComponent| Node::Expr(c->Expr_0),
                ));
            },
            ExprKind::If(condition, body, Some(otherwise)) => {
                assert(parts =~= seq![
                    Node::Expr(condition),
                    Node::Expr(body),
                    Node::Expr(otherwise),
                ]);
            },
            ExprKind::If(condition, body, None) => {
                assert(parts =~= seq![Node::Expr(condition), Node::Expr(body)]);
            },
            ExprKind::Range(Some(start), Some(step), Some(end)) => {
                assert(parts =~= seq![Node::Expr(start), Node::Expr(step), Node::Expr(end)]);
            },
            _ => {},
        }
    }
}

/// The parts of a block are its statements, in order, and those of a statement are its expression.
pub proof fn lemma_parts_of_statements(p: PackageV, b: BlockId, s: StmtId)
    ensures
        p.parts(Node::Block(b)).len() == p.blocks[b.0].stmts.len(),
        forall|i: int|
            0 <= i < p.blocks[b.0].stmts.len() ==> #[trigger] p.parts(Node::Block(b))[i]
                == Node::Stmt(p.blocks[b.0].stmts[i]),
        match p.stmts[s.0].kind {
            StmtKind::Expr(e) | StmtKind::Semi(e) | StmtKind::Local(_, _, e) => p.parts(
                Node::Stmt(s),
            ) == seq![Node::Expr(e)],
            StmtKind::Item(_) => p.parts(Node::Stmt(s)).len() == 0,
        },
{
}

/// Whether a set of nodes holds the parts of each of its members.
pub open spec fn holds_parts(p: PackageV, set: Set<Node>) -> bool {
    forall|x: Node, i: int|
        set.contains(x) && 0 <= i < p.parts(x).len() ==> set.contains(#[trigger] p.parts(x)[i])
}

proof fn lemma_walk_holds_parts(p: PackageV, node: Node, depth: nat, x: Node, i: int)
    requires
        p.node_ok(node, depth),
        p.walk(node, depth).contains(x),
        0 <= i < p.parts(x).len(),
    ensures
        p.walk(node, depth).contains(p.parts(x)[i]),
    decreases depth,
{
    let inner = (depth - 1) as nat;
    lemma_walk_contains(p, node, depth, x);
    lemma_walk_contains(p, node, depth, p.parts(x)[i]);
    if x == node {
        assert(p.node_ok(p.parts(node)[i], inner));
        lemma_walk_contains(p, p.parts(node)[i], inner, p.parts(node)[i]);
    } else {
        let j = choose|j: int|
            0 <= j < p.parts(node).len() && p.walk(#[trigger] p.parts(node)[j], inner).contains(x);
        lemma_walk_holds_parts(p, p.parts(node)[j], inner, x, i);
    }
}

proof fn lemma_walk_within(p: PackageV, node: Node, depth: nat, set: Set<Node>, x: Node)
    requires
        set.contains(node),
        holds_parts(p, set),
        p.walk(node, depth).contains(x),
    ensures
        set.contains(x),
    decreases depth,
{
    if depth == 0 {
        assert(p.walk(node, depth) =~= seq![]);
    } else {
        let inner = (depth - 1) as nat;
        lemma_walk_contains(p, node, depth, x);
        if x != node {
            let j = choose|j: int|
                0 <= j < p.parts(node).len() && p.walk(#[trigger] p.parts(node)[j], inner).contains(
                    x,
                );
            assert(set.contains(p.parts(node)[j]));
            lemma_walk_within(p, p.parts(node)[j], inner, set, x);
        }
    }
}

/// Walking whole nodes meets these nodes, and with each node all its parts, and nothing else: any
/// set that holds the nodes and the parts of its members holds everything that is met.
pub proof fn lemma_walk_is_everything_inside(p: PackageV, nodes: Seq<Node>, set: Set<Node>)
    requires
        forall|i: int| 0 <= i < nodes.len() ==> p.node_ok(#[trigger] nodes[i], p.node_depth()),
    ensures
        ({
            let met = p.walk_all(nodes, p.node_depth());
            &&& forall|i: int| 0 <= i < nodes.len() ==> met.contains(#[trigger] nodes[i])
            &&& forall|x: Node, i: int|
                met.contains(x) && 0 <= i < p.parts(x).len() ==> met.contains(
                    #[trigger] p.parts(x)[i],
                )
            &&& (forall|i: int| 0 <= i < nodes.len() ==> set.contains(#[trigger] nodes[i]))
                && holds_parts(p, set) ==> forall|x: Node| #[trigger]
                met.contains(x) ==> set.contains(x)
        }),
{
    let depth = p.node_depth();
    let met = p.walk_all(nodes, depth);
    assert forall|i: int| 0 <= i < nodes.len() implies met.contains(#[trigger] nodes[i]) by {
        assert(p.node_ok(nodes[i], depth));
        lemma_walk_contains(p, nodes[i], depth, nodes[i]);
        lemma_walk_all_contains(p, nodes, depth, nodes[i]);
        assert(p.walk(nodes[i], depth).contains(nodes[i]));
    }
    assert forall|x: Node, i: int|
        met.contains(x) && 0 <= i < p.parts(x).len() implies met.contains(
        #[trigger] p.parts(x)[i],
    ) by {
        lemma_walk_all_contains(p, nodes, depth, x);
        let j = choose|j: int|
            0 <= j < nodes.len() && p.walk(#[trigger] nodes[j], depth).contains(x);
        assert(p.node_ok(nodes[j], depth));
        lemma_walk_holds_parts(p, nodes[j], depth, x, i);
        lemma_walk_all_contains(p, nodes, depth, p.parts(x)[i]);
    }
    if (forall|i: int| 0 <= i < nodes.len() ==> set.contains(#[trigger] nodes[i])) && holds_parts(
        p,
        set,
    ) {
        assert forall|x: Node| #[trigger] met.contains(x) implies set.contains(x) by {
            lemma_walk_all_contains(p, nodes, depth, x);
            let j = choose|j: int|
                0 <= j < nodes.len() && p.walk(#[trigger] nodes[j], depth).contains(x);
            lemma_walk_within(p, nodes[j], depth, set, x);
        }
    }
}

/// A node comes before its parts, and what is in an earlier node before what is in a later one.
pub proof fn lemma_walk_order(p: PackageV, node: Node, x: Seq<Node>, y: Seq<Node>, depth: nat)
    ensures
        depth > 0 ==> p.walk(node, depth) == seq![node] + p.walk_all(
            p.parts(node),
            (depth - 1) as nat,
        ),
        p.walk_all(seq![node], depth) == p.walk(node, depth),
        p.walk_all(x + y, depth) == p.walk_all(x, depth) + p.walk_all(y, depth),
    decreases y.len(),
{
    assert(seq![node].drop_last() =~= seq![]);
    assert(p.walk_all(seq![node].drop_last(), depth) =~= seq![]);
    assert(p.walk_all(seq![node], depth) =~= p.walk(node, depth));
    if y.len() == 0 {
        assert(x + y =~= x);
        assert(p.walk_all(x, depth) + p.walk_all(y, depth) =~= p.walk_all(x, depth));
    } else {
        assert((x + y).drop_last() =~= x + y.drop_last());
        lemma_walk_order(p, node, x, y.drop_last(), depth);
        assert(p.walk_all(x + y, depth) =~= p.walk_all(x, depth) + p.walk_all(y, depth));
    }
}

/// Walking a callable meets the block of every one of its specializations, and with each node all
/// its parts, and nothing else. An intrinsic has nothing to walk, simulatable or not.
pub proof fn lemma_callable_walk(p: PackageV, decl: CallableDecl, set: Set<Node>)
    requires
        p.callable_ok(decl),
    ensures
        ({
            let met = p.callable_walk(decl.implementation);
            &&& match decl.implementation {
                CallableImpl::Spec(specs) => {
                    &&& met.contains(Node::Block(specs.body.block))
                    &&& specs.adj matches Some(spec) ==> met.contains(Node::Block(spec.block))
                    &&& specs.ctl matches Some(spec) ==> met.contains(Node::Block(spec.block))
                    &&& specs.ctl_adj matches Some(spec) ==> met.contains(Node::Block(spec.block))
                    &&& set.contains(Node::Block(specs.body.block)) && (
                    specs.adj matches Some(spec) ==> set.contains(Node::Block(spec.block))) && (
                    specs.ctl matches Some(spec) ==> set.contains(Node::Block(spec.block))) && (
                    specs.ctl_adj matches Some(spec) ==> set.contains(Node::Block(spec.block)))
                        && holds_parts(p, set) ==> forall|x: Node| #[trigger]
                        met.contains(x) ==> set.contains(x)
                },
                CallableImpl::Intrinsic | CallableImpl::SimulatableIntrinsic(_) => met.len() == 0,
            }
            &&& forall|x: Node, i: int|
                met.contains(x) && 0 <= i < p.parts(x).len() ==> met.contains(
                    #[trigger] p.parts(x)[i],
                )
        }),
{
    let nodes = body_nodes(decl.implementation);
    let met = p.callable_walk(decl.implementation);
    lemma_walk_is_everything_inside(p, nodes, set);
    if let CallableImpl::Spec(specs) = decl.implementation {
        let n1: int = 1 + if specs.adj is Some {
            1int
        } else {
            0
        };
        let n2: int = n1 + if specs.ctl is Some {
            1int
        } else {
            0
        };
        assert(nodes[0] == Node::Block(specs.body.block));
        if let Some(spec) = specs.adj {
            assert(nodes[1] == Node::Block(spec.block));
        }
        if let Some(spec) = specs.ctl {
            assert(nodes[n1] == Node::Block(spec.block));
        }
        if let Some(spec) = specs.ctl_adj {
            assert(nodes[n2] == Node::Block(spec.block));
        }
        assert forall|i: int| 0 <= i < nodes.len() implies #[trigger] nodes[i] == Node::Block(
            specs.body.block,
        ) || (specs.adj matches Some(spec) && nodes[i] == Node::Block(spec.block)) || (
        specs.ctl matches Some(spec) && nodes[i] == Node::Block(spec.block)) || (
        specs.ctl_adj matches Some(spec) && nodes[i] == Node::Block(spec.block)) by {}
    }
}

/// Both operands of an expression that is met are met, whatever the kind of the expression: with a
/// binary operator its two sides, with a call what is called and the argument, with a condition
/// every branch, and so on. Shown of a callable; `lemma_parts_of_expressions` says which operands
/// each kind has.
pub proof fn lemma_operands_are_met(p: PackageV, decl: CallableDecl, e: ExprId, operand: Node)
    requires
        p.callable_ok(decl),
        p.callable_walk(decl.implementation).contains(Node::Expr(e)),
        match p.exprs[e.0].kind {
            ExprKindV::Var(_, _) => false,
            ExprKindV::Field(record, _) => operand == Node::Expr(record),
            ExprKindV::Other(kind) => match kind {
                ExprKind::Array(items) | ExprKind::ArrayLit(items) | ExprKind::Tuple(items) =>
                operand matches Node::Expr(x) && items@.contains(x),
                ExprKind::ArrayRepeat(a, b)
                | ExprKind::Assign(a, b)
                | ExprKind::AssignField(a, _, b)
                | ExprKind::AssignOp(_, a, b) | ExprKind::BinOp(_, a, b) | ExprKind::Call(a, b)
                | ExprKind::Index(a, b) | ExprKind::UpdateField(a, _, b) => operand == Node::Expr(a)
                    || operand == Node::Expr(b),
                ExprKind::AssignIndex(a, b, c) | ExprKind::UpdateIndex(a, b, c) => operand
                    == Node::Expr(a) || operand == Node::Expr(b) || operand == Node::Expr(c),
                ExprKind::Block(b) => operand == Node::Block(b),
                ExprKind::Fail(a) | ExprKind::Return(a) | ExprKind::UnOp(_, a) | ExprKind::Field(
                    a,
                    _,
                ) => operand == Node::Expr(a),
                ExprKind::If(a, b, c) => operand == Node::Expr(a) || operand == Node::Expr(b) || (
                c matches Some(c) && operand == Node::Expr(c)),
                ExprKind::Range(a, b, c) => (a matches Some(a) && operand == Node::Expr(a)) || (
                b matches Some(b) && operand == Node::Expr(b)) || (c matches Some(c) && operand
                    == Node::Expr(c)),
                ExprKind::String(parts) => operand matches Node::Expr(x) && parts@.contains(
                    StringComponent::Expr(x),
                ),
                ExprKind::Struct(_, copied, fields) => (copied matches Some(x) && operand
                    == Node::Expr(x)) || exists|i: int|
                    0 <= i < fields@.len() && operand == Node::Expr((#[trigger] fields@[i]).value),
                ExprKind::While(a, b) => operand == Node::Expr(a) || operand == Node::Block(b),
                _ => false,
            },
        },
    ensures
        p.callable_walk(decl.implementation).contains(operand),
{
    let node = Node::Expr(e);
    let parts = p.parts(node);
    lemma_callable_walk(p, decl, Set::empty());
    lemma_parts_of_expressions(p, e);
    assert(parts.contains(operand)) by {
        if let ExprKindV::Other(kind) = p.exprs[e.0].kind {
            match kind {
                ExprKind::Array(items) | ExprKind::ArrayLit(items) | ExprKind::Tuple(items) => {
                    let i = items@.index_of(operand->Expr_0);
                    assert(parts[i] == operand);
                },
                ExprKind::String(components) => {
                    lemma_string_part(components@, operand->Expr_0);
                },
                ExprKind::Struct(_, copied, fields) => {
                    if copied matches Some(x) && operand == Node::Expr(x) {
                        assert(parts[0] == operand);
                    } else {
                        let i = choose|i: int|
                            0 <= i < fields@.len() && operand == Node::Expr(
                                (#[trigger] fields@[i]).value,
                            );
                        if copied is Some {
                            assert(parts[i + 1] == operand);
                        } else {
                            assert(parts[i] == operand);
                        }
                    }
                },
                _ => {
                    assert(parts.len() > 0 ==> parts[0] == parts[0]);
                    assert(parts.len() > 1 ==> parts[1] == parts[1]);
                    assert(parts.len() > 2 ==> parts[2] == parts[2]);
                },
            }
        } else {
            assert(parts[0] == operand);
        }
    }
    let i = parts.index_of(operand);
    assert(p.parts(node)[i] == operand);
}

proof fn lemma_string_part(components: Seq<StringComponent>, x: ExprId)
    requires
        components.contains(StringComponent::Expr(x)),
    ensures
        string_nodes(components).contains(Node::Expr(x)),
    decreases components.len(),
{
    let rest = components.drop_last();
    let all = string_nodes(components);
    let before = string_nodes(rest);
    if components.last() == StringComponent::Expr(x) {
        assert(all[all.len() - 1] == Node::Expr(x));
    } else {
        assert(rest[components.index_of(StringComponent::Expr(x))] == StringComponent::Expr(x));
        lemma_string_part(rest, x);
        assert(all[before.index_of(Node::Expr(x))] == Node::Expr(x));
    }
}

/// Whether an expression of package `package` names the item: a variable that resolves to it, or a
/// closure over it.
pub open spec fn names_item(
    p: PackageV,
    package: PackageId,
    e: ExprId,
    id: StoreItemId,
) -> bool {
    ||| p.exprs[e.0].kind matches ExprKindV::Var(Res::Item(named), _) && named.package == id.package
        && named.item == id.item
    ||| p.exprs[e.0].kind matches ExprKindV::Other(ExprKind::Closure(_, item)) && id.package
        == package && id.item == item
}

/// Every existing item that the entry expression names anywhere inside can be reached, and so can
/// every existing seed, and every existing item that a reachable callable names anywhere inside,
/// in whatever package these are.
pub proof fn lemma_what_is_named_is_reached(
    store: Map<usize, PackageV>,
    package: PackageId,
    seeds: Seq<StoreItemId>,
    e: ExprId,
    user: StoreItemId,
    id: StoreItemId,
)
    requires
        store.contains_key(id.package.0) && store[id.package.0].items.contains_key(id.item.0),
    ensures
        seeds.contains(id) ==> reachable_set(store, package, seeds).contains(id),
        ({
            let p = store[package.0];
            &&& p.entry matches Some(entry) && p.walk_all(
                seq![Node::Expr(entry)],
                p.node_depth(),
            ).contains(Node::Expr(e))
            &&& ((p.exprs[e.0].kind matches ExprKindV::Var(Res::Item(named), _) && named.package
                == id.package && named.item == id.item) || (
            p.exprs[e.0].kind matches ExprKindV::Other(ExprKind::Closure(_, item)) && id.package
                == package && id.item == item))
        }) ==> reachable_set(store, package, seeds).contains(id),
        ({
            let p = store[user.package.0];
            &&& store.contains_key(user.package.0) && p.items.contains_key(user.item.0)
            &&& reachable_set(store, package, seeds).contains(user)
            &&& p.items[user.item.0].kind matches ItemKind::Callable(decl) && p.callable_walk(
                decl.implementation,
            ).contains(Node::Expr(e))
            &&& ((p.exprs[e.0].kind matches ExprKindV::Var(Res::Item(named), _) && named.package
                == id.package && named.item == id.item) || (
            p.exprs[e.0].kind matches ExprKindV::Other(ExprKind::Closure(_, item)) && id.package
                == user.package && id.item == item))
        }) ==> reachable_set(store, package, seeds).contains(id),
{
    if seeds.contains(id) {
        lemma_root_reachable(store, package, seeds, id);
    }
    if let Some(entry) = store[package.0].entry {
        let met = store[package.0].walk_all(
            seq![Node::Expr(entry)],
            store[package.0].node_depth(),
        );
        if met.contains(Node::Expr(e)) && names_item(store[package.0], package, e, id) {
            assert(met[met.index_of(Node::Expr(e))] == Node::Expr(e));
            assert(nodes_name(store[package.0], package, met, id));
            lemma_root_reachable(store, package, seeds, id);
        }
    }
    if let ItemKind::Callable(decl) = store[user.package.0].items[user.item.0].kind {
        let p = store[user.package.0];
        let met = p.callable_walk(decl.implementation);
        if store.contains_key(user.package.0) && p.items.contains_key(user.item.0)
            && reachable_set(store, package, seeds).contains(user) && met.contains(Node::Expr(e))
            && names_item(p, user.package, e, id) {
            assert(met[met.index_of(Node::Expr(e))] == Node::Expr(e));
            assert(nodes_name(p, user.package, met, id));
            lemma_step_reachable(store, package, seeds, user, id);
        }
    }
}

/// Whatever existing item is named anywhere inside either side of a binary operator in a reachable
/// callable can be reached.
pub proof fn lemma_both_sides_are_searched(
    store: Map<usize, PackageV>,
    package: PackageId,
    seeds: Seq<StoreItemId>,
    user: StoreItemId,
    e: ExprId,
    side: ExprId,
    x: ExprId,
    id: StoreItemId,
)
    requires
        reach_ok(store, package, seeds),
        reachable_set(store, package, seeds).contains(user),
        store.contains_key(user.package.0),
        store[user.package.0].items.contains_key(user.item.0),
        store[user.package.0].items[user.item.0].kind matches ItemKind::Callable(decl)
            && store[user.package.0].callable_walk(decl.implementation).contains(Node::Expr(e)),
        store[user.package.0].exprs[e.0].kind matches ExprKindV::Other(
            ExprKind::BinOp(_, left, right),
        ) && (side == left || side == right),
        store[user.package.0].walk(
            Node::Expr(side),
            store[user.package.0].node_depth(),
        ).contains(Node::Expr(x)),
        names_item(store[user.package.0], user.package, x, id),
        store.contains_key(id.package.0),
        store[id.package.0].items.contains_key(id.item.0),
    ensures
        reachable_set(store, package, seeds).contains(id),
{
    let p = store[user.package.0];
    let decl = p.items[user.item.0].kind->Callable_0;
    let met = p.callable_walk(decl.implementation);
    assert(is_reachable(store, package, seeds, user));
    assert(p.callable_ok(*decl));
    lemma_operands_are_met(p, *decl, e, Node::Expr(side));
    lemma_callable_walk(p, *decl, Set::empty());
    let set = Set::new(|node: Node| met.contains(node));
    assert(holds_parts(p, set));
    lemma_walk_within(p, Node::Expr(side), p.node_depth(), set, Node::Expr(x));
    lemma_what_is_named_is_reached(store, package, seeds, x, user, id);
}

/// Nothing else can be reached: a set that holds the existing seeds, the existing items that the
/// entry expression names, and with a callable the existing items that it names, holds everything
/// that can be reached.
pub proof fn lemma_nothing_else_is_reached(
    store: Map<usize, PackageV>,
    package: PackageId,
    seeds: Seq<StoreItemId>,
    set: Set<StoreItemId>,
)
    requires
        forall|id: StoreItemId| #[trigger]
            seeds.contains(id) && store.contains_key(id.package.0)
                && store[id.package.0].items.contains_key(id.item.0) ==> set.contains(id),
        forall|e: ExprId, id: StoreItemId|
            store.contains_key(id.package.0) && store[id.package.0].items.contains_key(id.item.0)
                && (store[package.0].entry matches Some(entry) && store[package.0].walk_all(
                seq![Node::Expr(entry)],
                store[package.0].node_depth(),
            ).contains(Node::Expr(e))) && #[trigger] names_item(store[package.0], package, e, id)
                ==> set.contains(id),
        forall|user: StoreItemId, e: ExprId, id: StoreItemId|
            store.contains_key(id.package.0) && store[id.package.0].items.contains_key(id.item.0)
                && set.contains(user) && (store[user.package.0].items[user.item.0].kind matches
                ItemKind::Callable(decl) && store[user.package.0].callable_walk(
                decl.implementation,
            ).contains(Node::Expr(e))) && #[trigger] names_item(
                store[user.package.0],
                user.package,
                e,
                id,
            ) ==> set.contains(id),
    ensures
        reachable_set(store, package, seeds).subset_of(set),
{
    assert forall|id: StoreItemId| #[trigger]
        is_root(store, package, seeds, id) implies set.contains(id) by {
        if !seeds.contains(id) {
            let entry = store[package.0].entry->0;
            let p = store[package.0];
            let met = p.walk_all(seq![Node::Expr(entry)], p.node_depth());
            lemma_namer(p, package, met, id);
            let e = choose|e: ExprId|
                met.contains(Node::Expr(e)) && #[trigger] names_item(p, package, e, id);
            assert(names_item(store[package.0], package, e, id));
        }
    }
    assert forall|user: StoreItemId, id: StoreItemId|
        set.contains(user) && #[trigger] item_uses(store, user, id) implies set.contains(id) by {
        let p = store[user.package.0];
        let decl = p.items[user.item.0].kind->Callable_0;
        let met = p.callable_walk(decl.implementation);
        lemma_namer(p, user.package, met, id);
        let e = choose|e: ExprId|
            met.contains(Node::Expr(e)) && #[trigger] names_item(p, user.package, e, id);
        assert(names_item(store[user.package.0], user.package, e, id));
    }
    lemma_reachable_least(store, package, seeds, set);
}

proof fn lemma_namer(p: PackageV, package: PackageId, met: Seq<Node>, id: StoreItemId)
    requires
        nodes_name(p, package, met, id),
    ensures
        exists|e: ExprId|
            met.contains(Node::Expr(e)) && #[trigger] names_item(p, package, e, id),
{
    let i = choose|i: int|
        0 <= i < met.len() && (#[trigger] met[i] matches Node::Expr(e)
            && crate::reachability::named_item(package, p.exprs[e.0].kind) == Some(id));
    let e = met[i]->Expr_0;
    assert(met.contains(Node::Expr(e)));
    assert(names_item(p, package, e, id));
}

/// The specializations of a callable are walked in a fixed order: the body, the adjoint, the
/// controlled and the controlled adjoint one, each where there is one.
pub proof fn lemma_specializations_in_order(p: PackageV, implementation: CallableImpl)
    ensures
        implementation matches CallableImpl::Spec(specs) ==> {
            let depth = p.node_depth();
            p.callable_walk(implementation) == p.walk(Node::Block(specs.body.block), depth) + (
            match specs.adj {
                Some(spec) => p.walk(Node::Block(spec.block), depth),
                None => seq![],
            }) + (match specs.ctl {
                Some(spec) => p.walk(Node::Block(spec.block), depth),
                None => seq![],
            }) + (match specs.ctl_adj {
                Some(spec) => p.walk(Node::Block(spec.block), depth),
                None => seq![],
            })
        },
{
    if let CallableImpl::Spec(specs) = implementation {
        let depth = p.node_depth();
        let body = Node::Block(specs.body.block);
        let adj = match specs.adj {
            Some(spec) => seq![Node::Block(spec.block)],
            None => seq![],
        };
        let ctl = match specs.ctl {
            Some(spec) => seq![Node::Block(spec.block)],
            None => seq![],
        };
        let ctl_adj = match specs.ctl_adj {
            Some(spec) => seq![Node::Block(spec.block)],
            None => seq![],
        };
        lemma_walk_order(p, body, seq![body], adj, depth);
        lemma_walk_order(p, body, seq![body] + adj, ctl, depth);
        lemma_walk_order(p, body, seq![body] + adj + ctl, ctl_adj, depth);
        if let Some(spec) = specs.adj {
            lemma_walk_order(p, Node::Block(spec.block), seq![], seq![], depth);
        }
        if let Some(spec) = specs.ctl {
            lemma_walk_order(p, Node::Block(spec.block), seq![], seq![], depth);
        }
        if let Some(spec) = specs.ctl_adj {
            lemma_walk_order(p, Node::Block(spec.block), seq![], seq![], depth);
        }
        assert(body_nodes(implementation) =~= seq![body] + adj + ctl + ctl_adj);
    }
}

} // verus!
