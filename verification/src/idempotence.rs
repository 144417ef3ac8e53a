//! Normalizing tuple destructuring leaves nothing to normalize.

use vstd::prelude::*;

use crate::assigner::{is_fresh, Assigner};
use crate::fir::{
    BlockId, ItemKind, LocalItemId, PackageId, PackageV, StmtId, StmtKind, StoreItemId,
};
use crate::index_map::{keys_in_order, lemma_keys_below};
use crate::preservation::{
    binds_leaf, lemma_normalization_keeps, lemma_normalized, lemma_step, lemma_step_stmts,
    lemma_step_walk_all,
};
use crate::reachability::{item_ok, reach_ok, reachable_set};
use crate::tuple_destructuring::{
    applicable, has_room, is_called_for, items_rewrites, leaf_count, lemma_applicable,
    lemma_normalized_frame, lemma_package_rewrites, lemma_stmt_whole, new_stmt_ids, nodes_rewrites,
    normalized, package_rewrites, removed, rewrite_leaves, rewritten, spliced, stmt_rewrite,
    stmts_rewrites, RewriteV,
};
use crate::walk::{body_nodes, lemma_walk_all_ok, Node};

verus! {

/// How often a statement occurs.
pub open spec fn occurrences(stmts: Seq<StmtId>, s: StmtId) -> nat
    decreases stmts.len(),
{
    if stmts.len() == 0 {
        0
    } else if stmts.last() == s {
        occurrences(stmts.drop_last(), s) + 1
    } else {
        occurrences(stmts.drop_last(), s)
    }
}

proof fn lemma_occurrences_concat(x: Seq<StmtId>, y: Seq<StmtId>, s: StmtId)
    ensures
        occurrences(x + y, s) == occurrences(x, s) + occurrences(y, s),
    decreases y.len(),
{
    if y.len() == 0 {
        assert(x + y =~= x);
    } else {
        lemma_occurrences_concat(x, y.drop_last(), s);
        assert((x + y).drop_last() =~= x + y.drop_last());
    }
}

pub proof fn lemma_occurs(stmts: Seq<StmtId>, s: StmtId)
    ensures
        stmts.contains(s) <==> occurrences(stmts, s) > 0,
    decreases stmts.len(),
{
    if stmts.len() > 0 {
        let rest = stmts.drop_last();
        lemma_occurs(rest, s);
        if rest.contains(s) {
            assert(stmts[rest.index_of(s)] == s);
        }
        if stmts.contains(s) && stmts.last() != s {
            assert(rest[stmts.index_of(s)] == s);
        }
        if stmts.last() == s {
            assert(stmts[stmts.len() - 1] == s);
        }
    }
}

pub proof fn lemma_occurs_spliced(stmts: Seq<StmtId>, at: StmtId, new: Seq<StmtId>, s: StmtId)
    requires
        !new.contains(s),
    ensures
        occurrences(spliced(stmts, at, new), s) == occurrences(stmts, s),
{
    stmts.index_of_first_ensures(at);
    if let Some(pos) = stmts.index_of_first(at) {
        let (x, y) = (stmts.take(pos + 1), stmts.skip(pos + 1));
        assert(stmts =~= x + y);
        lemma_occurrences_concat(x, y, s);
        lemma_occurrences_concat(x, new, s);
        lemma_occurrences_concat(x + new, y, s);
        lemma_occurs(new, s);
    }
}

pub proof fn lemma_occurs_removed(stmts: Seq<StmtId>, at: StmtId, s: StmtId)
    ensures
        at != s || !stmts.contains(s) ==> occurrences(removed(stmts, at), s) == occurrences(
            stmts,
            s,
        ),
        at == s && stmts.contains(s) ==> occurrences(removed(stmts, at), s) + 1 == occurrences(
            stmts,
            s,
        ),
{
    stmts.index_of_first_ensures(at);
    if let Some(pos) = stmts.index_of_first(at) {
        let (x, y) = (stmts.take(pos), stmts.skip(pos + 1));
        let one = seq![at];
        assert(stmts =~= x + one + y);
        assert(removed(stmts, at) =~= x + y);
        lemma_occurrences_concat(x, y, s);
        lemma_occurrences_concat(x, one, s);
        lemma_occurrences_concat(x + one, y, s);
        assert(one.drop_last() =~= seq![]);
        assert(occurrences(one.drop_last(), s) == 0);
    }
}

/// How often a statement of a block is rewritten.
pub open spec fn entries(rs: Seq<RewriteV>, b: BlockId, s: StmtId) -> nat
    decreases rs.len(),
{
    if rs.len() == 0 {
        0
    } else if rs.last().block == b && rs.last().stmt == s {
        entries(rs.drop_last(), b, s) + 1
    } else {
        entries(rs.drop_last(), b, s)
    }
}

proof fn lemma_entries_concat(x: Seq<RewriteV>, y: Seq<RewriteV>, b: BlockId, s: StmtId)
    ensures
        entries(x + y, b, s) == entries(x, b, s) + entries(y, b, s),
    decreases y.len(),
{
    if y.len() == 0 {
        assert(x + y =~= x);
    } else {
        lemma_entries_concat(x, y.drop_last(), b, s);
        assert((x + y).drop_last() =~= x + y.drop_last());
    }
}

/// A statement that takes a local variable apart is rewritten as often as it occurs.
proof fn lemma_stmts_entries(p: PackageV, b: BlockId, stmts: Seq<StmtId>, s: StmtId)
    requires
        stmt_rewrite(p, b, s) is Some,
    ensures
        entries(stmts_rewrites(p, b, stmts), b, s) >= occurrences(stmts, s),
    decreases stmts.len(),
{
    if stmts.len() > 0 {
        lemma_stmts_entries(p, b, stmts.drop_last(), s);
        let before = stmts_rewrites(p, b, stmts.drop_last());
        if let Some(r) = stmt_rewrite(p, b, stmts.last()) {
            assert(before.push(r).drop_last() =~= before);
        }
    }
}

proof fn lemma_nodes_entries(p: PackageV, nodes: Seq<Node>, b: BlockId, s: StmtId)
    requires
        nodes.contains(Node::Block(b)),
        stmt_rewrite(p, b, s) is Some,
    ensures
        entries(nodes_rewrites(p, nodes), b, s) >= occurrences(p.blocks[b.0].stmts, s),
    decreases nodes.len(),
{
    let rest = nodes.drop_last();
    if let Node::Block(last) = nodes.last() {
        lemma_entries_concat(
            nodes_rewrites(p, rest),
            stmts_rewrites(p, last, p.blocks[last.0].stmts),
            b,
            s,
        );
    }
    if nodes.last() == Node::Block(b) {
        lemma_stmts_entries(p, b, p.blocks[b.0].stmts, s);
    } else {
        assert(rest[nodes.index_of(Node::Block(b))] == Node::Block(b));
        lemma_nodes_entries(p, rest, b, s);
    }
}

/// Whether a block is walked for one of the items: inside a reachable callable.
pub open spec fn is_walked(
    p: PackageV,
    package: PackageId,
    reachable: Set<StoreItemId>,
    item: usize,
    b: BlockId,
) -> bool {
    &&& reachable.contains(StoreItemId { package, item: LocalItemId(item) })
    &&& p.items[item].kind matches ItemKind::Callable(decl) && p.callable_walk(
        decl.implementation,
    ).contains(Node::Block(b))
}

pub proof fn lemma_items_entries(
    p: PackageV,
    package: PackageId,
    reachable: Set<StoreItemId>,
    items: Seq<usize>,
    item: usize,
    b: BlockId,
    s: StmtId,
)
    requires
        items.contains(item),
        is_walked(p, package, reachable, item, b),
        stmt_rewrite(p, b, s) is Some,
    ensures
        entries(items_rewrites(p, package, reachable, items), b, s) >= occurrences(
            p.blocks[b.0].stmts,
            s,
        ),
    decreases items.len(),
{
    let rest = items.drop_last();
    if let ItemKind::Callable(decl) = p.items[items.last()].kind {
        lemma_entries_concat(
            items_rewrites(p, package, reachable, rest),
            nodes_rewrites(p, p.callable_walk(decl.implementation)),
            b,
            s,
        );
        if items.last() == item {
            lemma_nodes_entries(p, p.callable_walk(decl.implementation), b, s);
        }
    }
    if items.last() != item {
        assert(rest[items.index_of(item)] == item);
        lemma_items_entries(p, package, reachable, rest, item, b, s);
    }
}

proof fn lemma_nodes_source(p: PackageV, nodes: Seq<Node>, r: RewriteV)
    requires
        nodes_rewrites(p, nodes).contains(r),
    ensures
        nodes.contains(Node::Block(r.block)),
    decreases nodes.len(),
{
    let rest = nodes.drop_last();
    let before = nodes_rewrites(p, rest);
    let all = nodes_rewrites(p, nodes);
    let i = all.index_of(r);
    if i < before.len() {
        assert(before[i] == r);
        lemma_nodes_source(p, rest, r);
        assert(nodes[rest.index_of(Node::Block(r.block))] == Node::Block(r.block));
    } else {
        let b = nodes.last()->Block_0;
        let inside = stmts_rewrites(p, b, p.blocks[b.0].stmts);
        assert(inside[i - before.len()] == r);
        lemma_stmts_source(p, b, p.blocks[b.0].stmts, r);
        assert(nodes[nodes.len() - 1] == Node::Block(b));
    }
}

proof fn lemma_stmts_source(p: PackageV, b: BlockId, stmts: Seq<StmtId>, r: RewriteV)
    requires
        stmts_rewrites(p, b, stmts).contains(r),
    ensures
        r.block == b,
    decreases stmts.len(),
{
    let rest = stmts.drop_last();
    let before = stmts_rewrites(p, b, rest);
    let all = stmts_rewrites(p, b, stmts);
    let i = all.index_of(r);
    if i < before.len() {
        assert(before[i] == r);
        lemma_stmts_source(p, b, rest, r);
    }
}

/// A rewrite comes from a walked block.
pub proof fn lemma_items_source(
    p: PackageV,
    package: PackageId,
    reachable: Set<StoreItemId>,
    items: Seq<usize>,
    r: RewriteV,
)
    requires
        items_rewrites(p, package, reachable, items).contains(r),
    ensures
        exists|item: usize|
            items.contains(item) && #[trigger] is_walked(p, package, reachable, item, r.block),
    decreases items.len(),
{
    let rest = items.drop_last();
    let before = items_rewrites(p, package, reachable, rest);
    let all = items_rewrites(p, package, reachable, items);
    let i = all.index_of(r);
    if i < before.len() {
        assert(before[i] == r);
        lemma_items_source(p, package, reachable, rest, r);
        let item = choose|item: usize|
            rest.contains(item) && #[trigger] is_walked(p, package, reachable, item, r.block);
        assert(items[rest.index_of(item)] == item);
    } else {
        let item = items.last();
        let decl = p.items[item].kind->Callable_0;
        let nodes = p.callable_walk(decl.implementation);
        assert(nodes_rewrites(p, nodes)[i - before.len()] == r);
        lemma_nodes_source(p, nodes, r);
        assert(items[items.len() - 1] == item);
        assert(is_walked(p, package, reachable, item, r.block));
    }
}

/// Each rewrite of a statement that stays as it is takes one occurrence of it away.
proof fn lemma_entries_spent(
    store: Map<usize, PackageV>,
    k: usize,
    a: Assigner,
    rs: Seq<RewriteV>,
    b: BlockId,
    s: StmtId,
)
    requires
        store.contains_key(k),
        is_fresh(a, store[k]),
        forall|i: int| 0 <= i < rs.len() ==> applicable(store[k], #[trigger] rs[i]),
        has_room(a, leaf_count(store[k], rs)),
        store[k].stmts.contains_key(s.0),
        store[k].stmts[s.0].kind matches StmtKind::Local(_, _, rhs)
            ==> store[k].exprs.contains_key(rhs.0),
        normalized(store[k], a, rs).0.blocks[b.0].stmts.contains(s),
        stmt_rewrite(normalized(store[k], a, rs).0, b, s) is Some,
    ensures
        occurrences(normalized(store[k], a, rs).0.blocks[b.0].stmts, s) + entries(rs, b, s)
            <= occurrences(store[k].blocks[b.0].stmts, s),
    decreases rs.len(),
{
    let p = store[k];
    if rs.len() > 0 {
        let rest = rs.drop_last();
        let r = rs.last();
        assert forall|i: int| 0 <= i < rest.len() implies applicable(p, #[trigger] rest[i]) by {
            assert(applicable(p, rs[i]));
        }
        assert(applicable(p, rs[rs.len() - 1]));
        lemma_normalized(store, k, a, rest);
        lemma_normalized_frame(p, a, rest);
        let (q, c) = normalized(p, a, rest);
        let z = rewritten(q, c, r);
        let ls = rewrite_leaves(q, r);
        lemma_step(q, c, r);
        assert(q.stmts.contains_key(s.0));
        assert(r.stmt == s ==> ls.len() == 0);
        let before = q.blocks[b.0].stmts;
        if r.block == b {
            if ls.len() == 0 {
                lemma_occurs_removed(before, r.stmt, s);
            } else {
                let new = new_stmt_ids(c, (ls.len() - 1) as nat);
                assert(!new.contains(s)) by {
                    if new.contains(s) {
                        let j = new.index_of(s);
                        assert(new[j].0 == c.next_stmt + j);
                    }
                }
                lemma_occurs_spliced(before, r.stmt, new, s);
            }
        }
        lemma_occurs(z.blocks[b.0].stmts, s);
        lemma_occurs(before, s);
        if let StmtKind::Local(_, _, rhs) = q.stmts[s.0].kind {
            assert(q.exprs.contains_key(rhs.0)) by {
                if q.stmts[s.0].kind == p.stmts[s.0].kind {
                    assert(p.exprs.contains_key(rhs.0));
                } else {
                    assert(binds_leaf(q, StmtId(s.0)));
                }
            }
        }
        assert(stmt_rewrite(q, b, s) is Some);
        lemma_entries_spent(store, k, a, rest, b, s);
    }
}

/// A statement that was there does not move into a block.
proof fn lemma_normalized_stmts(
    store: Map<usize, PackageV>,
    k: usize,
    a: Assigner,
    rs: Seq<RewriteV>,
    b: BlockId,
    s: StmtId,
)
    requires
        store.contains_key(k),
        is_fresh(a, store[k]),
        forall|i: int| 0 <= i < rs.len() ==> applicable(store[k], #[trigger] rs[i]),
        has_room(a, leaf_count(store[k], rs)),
        store[k].stmts.contains_key(s.0),
        normalized(store[k], a, rs).0.blocks[b.0].stmts.contains(s),
    ensures
        store[k].blocks[b.0].stmts.contains(s),
    decreases rs.len(),
{
    let p = store[k];
    if rs.len() > 0 {
        let rest = rs.drop_last();
        assert forall|i: int| 0 <= i < rest.len() implies applicable(p, #[trigger] rest[i]) by {
            assert(applicable(p, rs[i]));
        }
        assert(applicable(p, rs[rs.len() - 1]));
        lemma_normalized(store, k, a, rest);
        lemma_normalized_frame(p, a, rest);
        let (q, c) = normalized(p, a, rest);
        lemma_step(q, c, rs.last());
        lemma_step_stmts(q, c, rs.last());
        assert(q.stmts.contains_key(s.0));
        let after = rewritten(q, c, rs.last()).blocks[b.0].stmts;
        assert(after[after.index_of(s)] == s);
        lemma_normalized_stmts(store, k, a, rest, b, s);
    }
}

proof fn lemma_walked_block(
    p: PackageV,
    package: PackageId,
    reachable: Set<StoreItemId>,
    item: usize,
    b: BlockId,
)
    requires
        p.items[item].kind matches ItemKind::Callable(decl) ==> p.callable_ok(*decl),
        is_walked(p, package, reachable, item, b),
    ensures
        p.node_ok(Node::Block(b), p.node_depth()),
{
    let decl = p.items[item].kind->Callable_0;
    let nodes = p.callable_walk(decl.implementation);
    assert(p.callable_ok(*decl));
    lemma_walk_all_ok(p, body_nodes(decl.implementation), p.node_depth());
    assert(p.node_ok(nodes[nodes.index_of(Node::Block(b))], p.node_depth()));
}

/// Rewrites neither add nor take out blocks.
proof fn lemma_normalized_blocks(
    store: Map<usize, PackageV>,
    k: usize,
    a: Assigner,
    rs: Seq<RewriteV>,
    item: usize,
    b: BlockId,
)
    requires
        store.contains_key(k),
        is_fresh(a, store[k]),
        forall|i: int| 0 <= i < rs.len() ==> applicable(store[k], #[trigger] rs[i]),
        has_room(a, leaf_count(store[k], rs)),
        store[k].items[item].kind matches ItemKind::Callable(decl) && store[k].callable_ok(*decl),
    ensures
        ({
            let implementation = store[k].items[item].kind->Callable_0.implementation;
            normalized(store[k], a, rs).0.callable_walk(implementation).contains(Node::Block(b))
                <==> store[k].callable_walk(implementation).contains(Node::Block(b))
        }),
    decreases rs.len(),
{
    let p = store[k];
    if rs.len() > 0 {
        let rest = rs.drop_last();
        assert forall|i: int| 0 <= i < rest.len() implies applicable(p, #[trigger] rest[i]) by {
            assert(applicable(p, rs[i]));
        }
        assert(applicable(p, rs[rs.len() - 1]));
        lemma_normalized(store, k, a, rest);
        lemma_normalized_frame(p, a, rest);
        lemma_normalized_blocks(store, k, a, rest, item, b);
        let (q, c) = normalized(p, a, rest);
        let decl = p.items[item].kind->Callable_0;
        assert(q.callable_ok(*decl));
        lemma_step_walk_all(
            q,
            c,
            rs.last(),
            body_nodes(decl.implementation),
            Node::Block(b),
        );
    }
}

/// After normalization nothing calls for a rewrite any more, so that normalizing once again
/// changes nothing.
pub proof fn lemma_normalization_is_idempotent(
    store: Map<usize, PackageV>,
    package: PackageId,
    a: Assigner,
)
    requires
        reach_ok(store, package, Seq::empty()),
        is_fresh(a, store[package.0]),
        has_room(a, leaf_count(store[package.0], package_rewrites(store, package))),
    ensures
        package_rewrites(
            store.insert(
                package.0,
                normalized(store[package.0], a, package_rewrites(store, package)).0,
            ),
            package,
        ).len() == 0,
{
    let p = store[package.0];
    let rs = package_rewrites(store, package);
    let q = normalized(p, a, rs).0;
    let after = store.insert(package.0, q);
    let again = package_rewrites(after, package);
    let reachable = reachable_set(store, package, Seq::empty());
    let items = keys_in_order(p.items.dom());
    lemma_package_rewrites(store, package);
    assert forall|i: int| 0 <= i < rs.len() implies applicable(p, #[trigger] rs[i]) by {
        lemma_applicable(p, rs[i]);
    }
    lemma_normalization_keeps(store, package, a);
    if again.len() > 0 {
        let r = again[0];
        let (b, s) = (r.block, r.stmt);
        assert(after.contains_key(package.0) && after[package.0] == q);
        assert(reachable_set(after, package, Seq::empty()) == reachable);
        lemma_package_rewrites(after, package);
        assert(is_called_for(q, again[0]));
        assert(again.contains(r));
        lemma_items_source(q, package, reachable, items, r);
        let item = choose|item: usize|
            items.contains(item) && #[trigger] is_walked(q, package, reachable, item, b);
        lemma_keys_below(p.items.dom(), usize::MAX as nat + 1);
        assert(p.items.contains_key(item));
        assert(item_ok(store, StoreItemId { package, item: LocalItemId(item) }));
        lemma_normalized_blocks(store, package.0, a, rs, item, b);
        assert(is_walked(p, package, reachable, item, b));
        lemma_walked_block(p, package, reachable, item, b);
        assert(p.stmts.contains_key(s.0)) by {
            if !p.stmts.contains_key(s.0) {
                lemma_stmt_whole(q, b, s);
                assert(binds_leaf(q, StmtId(s.0)));
            }
        }
        lemma_normalized_stmts(store, package.0, a, rs, b, s);
        lemma_stmt_whole(p, b, s);
        assert(stmt_rewrite(p, b, s) is Some) by {
            assert(q.stmts[s.0].kind == p.stmts[s.0].kind) by {
                if q.stmts[s.0].kind != p.stmts[s.0].kind {
                    assert(binds_leaf(q, StmtId(s.0)));
                }
            }
        }
        lemma_entries_spent(store, package.0, a, rs, b, s);
        lemma_items_entries(p, package, reachable, items, item, b, s);
        lemma_occurs(q.blocks[b.0].stmts, s);
    }
}

} // verus!
