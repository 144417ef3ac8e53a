//! Which patterns, nodes and callables are whole.

use vstd::prelude::*;
use vstd::set_lib::{lemma_len_subset, lemma_len_union, lemma_map_size};

use crate::fir::{
    BlockId, CallableDecl, CallableImpl, ExprId, ItemKind, PackageId, PackageV, Pat, PatId, PatKind,
    StmtId, StmtKind, StoreItemId,
};
use crate::preservation::lemma_usize_set_finite;
use crate::reachability::{is_reachable, reach_ok, reachable_set};
use crate::walk::{body_nodes, lemma_node_ok_deeper, lemma_pat_ok_deeper, pat_ok, Node};

verus! {

/// Whether every pattern of the set exists, and with a tuple pattern its elements are in the set,
/// each of a smaller rank, so that none is inside itself.
pub open spec fn pats_nest(
    pats: Map<usize, Pat>,
    good: Set<PatId>,
    rank: spec_fn(PatId) -> nat,
) -> bool {
    forall|id: PatId| #[trigger]
        good.contains(id) ==> pats.contains_key(id.0) && (pats[id.0].kind matches PatKind::Tuple(
            subs,
        ) ==> forall|i: int|
            0 <= i < subs@.len() ==> good.contains(#[trigger] subs@[i]) && rank(subs@[i]) < rank(
                id,
            ))
}

spec fn pats_below(good: Set<PatId>, rank: spec_fn(PatId) -> nat, bound: nat) -> Set<PatId> {
    Set::new(|id: PatId| good.contains(id) && rank(id) <= bound)
}

proof fn lemma_pats_below(
    pats: Map<usize, Pat>,
    good: Set<PatId>,
    rank: spec_fn(PatId) -> nat,
    bound: nat,
)
    requires
        pats_nest(pats, good, rank),
    ensures
        pats_below(good, rank, bound).finite(),
        pats_below(good, rank, bound).len() <= pats.dom().len(),
{
    let named = |k: usize| PatId(k);
    let all = pats.dom().map(named);
    lemma_usize_set_finite(pats.dom());
    lemma_map_size(pats.dom(), all, named);
    assert forall|id: PatId| pats_below(good, rank, bound).contains(id) implies all.contains(
        id,
    ) by {
        assert(pats.dom().contains(id.0));
        assert(named(id.0) == id);
    }
    lemma_len_subset(pats_below(good, rank, bound), all);
}

proof fn lemma_pat_nested(
    pats: Map<usize, Pat>,
    good: Set<PatId>,
    rank: spec_fn(PatId) -> nat,
    id: PatId,
)
    requires
        pats_nest(pats, good, rank),
        good.contains(id),
    ensures
        pat_ok(pats, id, pats_below(good, rank, rank(id)).len()),
    decreases rank(id),
{
    let set = pats_below(good, rank, rank(id));
    lemma_pats_below(pats, good, rank, rank(id));
    assert(set.contains(id));
    assert(set.len() > 0) by {
        if set.len() == 0 {
            assert(set =~= Set::empty());
        }
    }
    if let PatKind::Tuple(subs) = pats[id.0].kind {
        assert forall|i: int| 0 <= i < subs@.len() implies pat_ok(
            pats,
            #[trigger] subs@[i],
            (set.len() - 1) as nat,
        ) by {
            let sub = subs@[i];
            assert(good.contains(sub) && rank(sub) < rank(id));
            let inner = pats_below(good, rank, rank(sub));
            lemma_pat_nested(pats, good, rank, sub);
            lemma_pats_below(pats, good, rank, rank(sub));
            assert(inner.subset_of(set.remove(id)));
            lemma_len_subset(inner, set.remove(id));
            lemma_pat_ok_deeper(pats, sub, inner.len(), (set.len() - 1) as nat);
        }
    }
}

/// Whether every node of the set exists, its parts are in the set, each of a smaller rank, so that
/// none is inside itself, and the pattern of a `let` is one of the given patterns.
pub open spec fn nodes_nest(
    p: PackageV,
    pats: Set<PatId>,
    good: Set<Node>,
    rank: spec_fn(Node) -> nat,
) -> bool {
    forall|node: Node| #[trigger]
        good.contains(node) ==> {
            &&& match node {
                Node::Block(b) => p.blocks.contains_key(b.0),
                Node::Expr(e) => p.exprs.contains_key(e.0),
                Node::Stmt(s) => p.stmts.contains_key(s.0) && (p.stmts[s.0].kind matches
                    StmtKind::Local(_, pat, _) ==> pats.contains(pat)),
            }
            &&& forall|i: int|
                0 <= i < p.parts(node).len() ==> good.contains(#[trigger] p.parts(node)[i]) && rank(
                    p.parts(node)[i],
                ) < rank(node)
        }
}

spec fn nodes_below(good: Set<Node>, rank: spec_fn(Node) -> nat, bound: nat) -> Set<Node> {
    Set::new(|node: Node| good.contains(node) && rank(node) <= bound)
}

proof fn lemma_nodes_below(
    p: PackageV,
    pats: Set<PatId>,
    good: Set<Node>,
    rank: spec_fn(Node) -> nat,
    bound: nat,
)
    requires
        nodes_nest(p, pats, good, rank),
    ensures
        nodes_below(good, rank, bound).finite(),
        nodes_below(good, rank, bound).len() <= p.node_depth(),
{
    let block = |k: usize| Node::Block(BlockId(k));
    let expr = |k: usize| Node::Expr(ExprId(k));
    let stmt = |k: usize| Node::Stmt(StmtId(k));
    let blocks = p.blocks.dom().map(block);
    let exprs = p.exprs.dom().map(expr);
    let stmts = p.stmts.dom().map(stmt);
    lemma_usize_set_finite(p.blocks.dom());
    lemma_usize_set_finite(p.exprs.dom());
    lemma_usize_set_finite(p.stmts.dom());
    lemma_map_size(p.blocks.dom(), blocks, block);
    lemma_map_size(p.exprs.dom(), exprs, expr);
    lemma_map_size(p.stmts.dom(), stmts, stmt);
    let all = blocks.union(exprs).union(stmts);
    lemma_len_union(blocks, exprs);
    lemma_len_union(blocks.union(exprs), stmts);
    assert forall|node: Node| nodes_below(good, rank, bound).contains(node) implies all.contains(
        node,
    ) by {
        assert(good.contains(node));
        match node {
            Node::Block(b) => {
                assert(p.blocks.dom().contains(b.0));
                assert(block(b.0) == node);
            },
            Node::Expr(e) => {
                assert(p.exprs.dom().contains(e.0));
                assert(expr(e.0) == node);
            },
            Node::Stmt(s) => {
                assert(p.stmts.dom().contains(s.0));
                assert(stmt(s.0) == node);
            },
        }
    }
    lemma_len_subset(nodes_below(good, rank, bound), all);
}

proof fn lemma_node_nested(
    p: PackageV,
    pats: Set<PatId>,
    pat_rank: spec_fn(PatId) -> nat,
    good: Set<Node>,
    rank: spec_fn(Node) -> nat,
    node: Node,
)
    requires
        pats_nest(p.pats, pats, pat_rank),
        nodes_nest(p, pats, good, rank),
        good.contains(node),
    ensures
        p.node_ok(node, nodes_below(good, rank, rank(node)).len()),
    decreases rank(node),
{
    let set = nodes_below(good, rank, rank(node));
    lemma_nodes_below(p, pats, good, rank, rank(node));
    assert(set.contains(node));
    assert(set.len() > 0) by {
        if set.len() == 0 {
            assert(set =~= Set::empty());
        }
    }
    let inside = (set.len() - 1) as nat;
    assert(p.binds_ok(node)) by {
        if let Node::Stmt(s) = node {
            if let StmtKind::Local(_, pat, _) = p.stmts[s.0].kind {
                lemma_pat_is_whole(p, pats, pat_rank, pat);
            }
        }
    }
    assert forall|i: int| 0 <= i < p.parts(node).len() implies p.node_ok(
        #[trigger] p.parts(node)[i],
        inside,
    ) by {
        let part = p.parts(node)[i];
        assert(good.contains(part) && rank(part) < rank(node));
        let inner = nodes_below(good, rank, rank(part));
        lemma_node_nested(p, pats, pat_rank, good, rank, part);
        lemma_nodes_below(p, pats, good, rank, rank(part));
        assert(inner.subset_of(set.remove(node)));
        lemma_len_subset(inner, set.remove(node));
        lemma_node_ok_deeper(p, part, inner.len(), inside);
    }
}

/// A pattern is whole if everything inside it exists and no pattern is inside itself, however
/// deeply they nest.
pub proof fn lemma_pat_is_whole(
    p: PackageV,
    pats: Set<PatId>,
    rank: spec_fn(PatId) -> nat,
    id: PatId,
)
    requires
        pats_nest(p.pats, pats, rank),
        pats.contains(id),
    ensures
        pat_ok(p.pats, id, p.pat_depth()),
{
    lemma_pat_nested(p.pats, pats, rank, id);
    lemma_pats_below(p.pats, pats, rank, rank(id));
    lemma_pat_ok_deeper(p.pats, id, pats_below(pats, rank, rank(id)).len(), p.pat_depth());
}

/// A node is whole if everything inside it exists, no node or pattern is inside itself, however
/// deeply they nest, and the same holds of the patterns that it binds.
pub proof fn lemma_node_is_whole(
    p: PackageV,
    pats: Set<PatId>,
    pat_rank: spec_fn(PatId) -> nat,
    good: Set<Node>,
    rank: spec_fn(Node) -> nat,
    node: Node,
)
    requires
        pats_nest(p.pats, pats, pat_rank),
        nodes_nest(p, pats, good, rank),
        good.contains(node),
    ensures
        p.node_ok(node, p.node_depth()),
{
    lemma_node_nested(p, pats, pat_rank, good, rank, node);
    lemma_nodes_below(p, pats, good, rank, rank(node));
    lemma_node_ok_deeper(p, node, nodes_below(good, rank, rank(node)).len(), p.node_depth());
}

/// A callable is whole if its input and the blocks of its specializations are, and so is a package
/// with its entry expression.
pub proof fn lemma_callable_is_whole(
    p: PackageV,
    pats: Set<PatId>,
    pat_rank: spec_fn(PatId) -> nat,
    good: Set<Node>,
    rank: spec_fn(Node) -> nat,
    decl: CallableDecl,
)
    requires
        pats_nest(p.pats, pats, pat_rank),
        nodes_nest(p, pats, good, rank),
    ensures
        pats.contains(decl.input) && (decl.implementation matches CallableImpl::Spec(specs) ==> {
            &&& good.contains(Node::Block(specs.body.block))
            &&& specs.adj matches Some(spec) ==> good.contains(Node::Block(spec.block))
            &&& specs.ctl matches Some(spec) ==> good.contains(Node::Block(spec.block))
            &&& specs.ctl_adj matches Some(spec) ==> good.contains(Node::Block(spec.block))
        }) ==> p.callable_ok(decl),
        (p.entry matches Some(e) ==> good.contains(Node::Expr(e))) ==> p.entry_ok(),
{
    if pats.contains(decl.input) {
        lemma_pat_is_whole(p, pats, pat_rank, decl.input);
    }
    let roots = body_nodes(decl.implementation);
    assert forall|i: int|
        0 <= i < roots.len() && good.contains(#[trigger] roots[i]) implies p.node_ok(
        roots[i],
        p.node_depth(),
    ) by {
        lemma_node_is_whole(p, pats, pat_rank, good, rank, roots[i]);
    }
    if let Some(e) = p.entry {
        if good.contains(Node::Expr(e)) {
            lemma_node_is_whole(p, pats, pat_rank, good, rank, Node::Expr(e));
        }
    }
}

/// What is inside a whole pattern exists.
pub proof fn lemma_whole_pats_exist(pats: Map<usize, Pat>, id: PatId, depth: nat)
    requires
        pat_ok(pats, id, depth),
    ensures
        pats.contains_key(id.0),
        pats[id.0].kind matches PatKind::Tuple(subs) ==> forall|i: int|
            0 <= i < subs@.len() ==> pats.contains_key((#[trigger] subs@[i]).0) && subs@[i] != id,
{
    if let PatKind::Tuple(subs) = pats[id.0].kind {
        assert forall|i: int| 0 <= i < subs@.len() implies pats.contains_key(
            (#[trigger] subs@[i]).0,
        ) && subs@[i] != id by {
            assert(pat_ok(pats, subs@[i], (depth - 1) as nat));
            lemma_not_inside_itself(pats, id, depth, i);
        }
    }
}

proof fn lemma_not_inside_itself(pats: Map<usize, Pat>, id: PatId, depth: nat, i: int)
    requires
        pat_ok(pats, id, depth),
    ensures
        pats[id.0].kind matches PatKind::Tuple(subs) ==> (0 <= i < subs@.len() ==> subs@[i] != id),
    decreases depth,
{
    if let PatKind::Tuple(subs) = pats[id.0].kind {
        if 0 <= i < subs@.len() && subs@[i] == id {
            assert(pat_ok(pats, subs@[i], (depth - 1) as nat));
            lemma_not_inside_itself(pats, id, (depth - 1) as nat, i);
        }
    }
}

/// Reaching meets only what is whole exactly if the package exists, its entry expression is whole,
/// and so is every callable that can be reached.
pub proof fn lemma_reached_is_whole(
    store: Map<usize, PackageV>,
    package: PackageId,
    seeds: Seq<StoreItemId>,
)
    ensures
        reach_ok(store, package, seeds) <==> {
            &&& store.contains_key(package.0)
            &&& store[package.0].entry_ok()
            &&& forall|id: StoreItemId|
                #![trigger reachable_set(store, package, seeds).contains(id)]
                reachable_set(store, package, seeds).contains(id) && store.contains_key(
                    id.package.0,
                ) && store[id.package.0].items.contains_key(id.item.0) ==> (store[
                    id.package.0
                ].items[id.item.0].kind matches ItemKind::Callable(decl) ==> store[
                    id.package.0
                ].callable_ok(*decl))
        },
{
    assert forall|id: StoreItemId| #[trigger]
        is_reachable(store, package, seeds, id) implies reachable_set(
        store,
        package,
        seeds,
    ).contains(id) by {}
    assert forall|id: StoreItemId| #[trigger]
        reachable_set(store, package, seeds).contains(id) implies is_reachable(
        store,
        package,
        seeds,
        id,
    ) by {}
}

} // verus!
