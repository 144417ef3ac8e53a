//! What normalizing tuple destructuring keeps: identifiers stay unique, what was whole stays
//! whole, and the same items stay reachable.

use vstd::prelude::*;

use crate::assigner::{is_fresh, Assigner};
use crate::fir::{
    no_exec_range, BlockV, CallableDecl, ExprId, ExprKindV, ExprV, ItemKind, PackageId, PackageV,
    Pat, PatId, PatKind, Res, Stmt, StmtId, StmtKind, StoreItemId,
};
use crate::reachability::{
    is_reachable, is_root, item_exists, item_ok, item_uses, lemma_reachable_least,
    lemma_root_reachable, lemma_step_reachable, named_item, nodes_name, reach_ok, reachable_set,
};
use crate::tuple_destructuring::{
    applicable, assigner_after, field_expr, has_room, leaf_count, leaf_let, leaves, leaves_of,
    lemma_applicable, lemma_normalized_frame, lemma_package_rewrites, new_stmt_ids, normalized,
    package_rewrites, projection_id, reads_local, removed, rewrite_leaves, rewritten, spliced,
    synthesized_stmt, var_expr, with_lets, with_projections, LeafV, RewriteV,
};
use crate::walk::{
    body_nodes, lemma_node_ok_deeper, lemma_pat_ok_deeper, lemma_walk_all_ok, lemma_walk_deeper,
    pat_ok, Node,
};

verus! {

/// What adding projections does: two expressions for each leaf under the next identifiers, and
/// nothing to the expressions before them.
pub proof fn lemma_projections(
    exprs: Map<usize, ExprV>,
    next: nat,
    r: RewriteV,
    ls: Seq<LeafV>,
)
    requires
        next + 2 * ls.len() < usize::MAX,
    ensures
        forall|k: usize| #[trigger]
            with_projections(exprs, next, r, ls).contains_key(k) <==> exprs.contains_key(k) || next
                <= k < next + 2 * ls.len(),
        forall|k: usize|
            k < next ==> #[trigger] with_projections(exprs, next, r, ls)[k] == exprs[k],
        forall|j: int|
            0 <= j < ls.len() ==> {
                let field = #[trigger] projection_id(next, j);
                let base = ExprId((next + 2 * j) as usize);
                &&& with_projections(exprs, next, r, ls)[base.0] == var_expr(base, r.source, r.ty)
                &&& with_projections(exprs, next, r, ls)[field.0] == field_expr(
                    field,
                    base,
                    ls[j].path,
                    ls[j].ty,
                )
            },
    decreases ls.len(),
{
    if ls.len() > 0 {
        lemma_projections(exprs, next, r, ls.drop_last());
        let before = with_projections(exprs, next, r, ls.drop_last());
        assert forall|j: int| 0 <= j < ls.len() implies {
            let field = #[trigger] projection_id(next, j);
            let base = ExprId((next + 2 * j) as usize);
            &&& with_projections(exprs, next, r, ls)[base.0] == var_expr(base, r.source, r.ty)
            &&& with_projections(exprs, next, r, ls)[field.0] == field_expr(
                field,
                base,
                ls[j].path,
                ls[j].ty,
            )
        } by {
            if j < ls.len() - 1 {
                assert(ls.drop_last()[j] == ls[j]);
                let field = projection_id(next, j);
                let base = ExprId((next + 2 * j) as usize);
                assert(before[base.0] == var_expr(base, r.source, r.ty));
            }
        }
    }
}

/// What adding bindings does: a statement for each leaf but the first under the next
/// identifiers, and nothing to the statements before them.
pub proof fn lemma_lets(
    stmts: Map<usize, Stmt>,
    a: Assigner,
    r: RewriteV,
    ls: Seq<LeafV>,
    n: nat,
)
    requires
        a.next_stmt + n < usize::MAX,
    ensures
        forall|k: usize| #[trigger]
            with_lets(stmts, a, r, ls, n).contains_key(k) <==> stmts.contains_key(k)
                || a.next_stmt <= k < a.next_stmt + n - 1,
        forall|k: usize|
            k < a.next_stmt ==> #[trigger] with_lets(stmts, a, r, ls, n)[k] == stmts[k],
        forall|j: int|
            0 <= j < n - 1 ==> {
                let id = StmtId((a.next_stmt + j) as usize);
                #[trigger] with_lets(stmts, a, r, ls, n)[(a.next_stmt + j) as usize]
                    == synthesized_stmt(id, leaf_let(a, r, ls, j + 1))
            },
    decreases n,
{
    if n > 1 {
        lemma_lets(stmts, a, r, ls, (n - 1) as nat);
        let before = with_lets(stmts, a, r, ls, (n - 1) as nat);
        assert forall|j: int| 0 <= j < n - 1 implies {
            let id = StmtId((a.next_stmt + j) as usize);
            #[trigger] with_lets(stmts, a, r, ls, n)[(a.next_stmt + j) as usize]
                == synthesized_stmt(id, leaf_let(a, r, ls, j + 1))
        } by {
            if j < n - 2 {
                assert(before[(a.next_stmt + j) as usize] == synthesized_stmt(
                    StmtId((a.next_stmt + j) as usize),
                    leaf_let(a, r, ls, j + 1),
                ));
            }
        }
    }
}

/// Whether every leaf is a whole pattern that binds a variable.
pub open spec fn leaves_whole(pats: Map<usize, Pat>, ls: Seq<LeafV>) -> bool {
    forall|j: int|
        0 <= j < ls.len() ==> pats.contains_key((#[trigger] ls[j]).pat.0)
            && pats[ls[j].pat.0].kind is Bind
}

/// The leaves of a whole pattern bind variables.
pub proof fn lemma_leaves_whole(pats: Map<usize, Pat>, id: PatId, path: Seq<usize>, depth: nat)
    requires
        pat_ok(pats, id, depth),
    ensures
        leaves_whole(pats, leaves(pats, id, path, depth)),
    decreases depth, 0nat,
{
    if let PatKind::Tuple(subs) = pats[id.0].kind {
        lemma_leaves_of_whole(pats, subs@, path, (depth - 1) as nat);
    }
}

/// The leaves of whole patterns bind variables.
pub proof fn lemma_leaves_of_whole(
    pats: Map<usize, Pat>,
    subs: Seq<PatId>,
    path: Seq<usize>,
    depth: nat,
)
    requires
        forall|i: int| 0 <= i < subs.len() ==> pat_ok(pats, #[trigger] subs[i], depth),
    ensures
        leaves_whole(pats, leaves_of(pats, subs, path, depth)),
    decreases depth, subs.len(),
{
    if subs.len() > 0 {
        let rest = subs.drop_last();
        assert forall|i: int| 0 <= i < rest.len() implies pat_ok(
            pats,
            #[trigger] rest[i],
            depth,
        ) by {
            assert(rest[i] == subs[i]);
        }
        lemma_leaves_of_whole(pats, rest, path, depth);
        assert(pat_ok(pats, subs[subs.len() - 1], depth));
        lemma_leaves_whole(pats, subs.last(), path.push((subs.len() - 1) as usize), depth);
    }
}

/// Whether a statement binds one whole pattern to what is read from a local variable.
pub open spec fn binds_leaf(p: PackageV, s: StmtId) -> bool {
    &&& p.stmts.contains_key(s.0)
    &&& p.stmts[s.0].kind matches StmtKind::Local(_, pat, rhs) && reads_local(p, rhs)
        && p.pats.contains_key(pat.0) && p.pats[pat.0].kind is Bind
}

/// What a rewrite leaves as it is, and what it adds.
pub open spec fn extends(p: PackageV, a: Assigner, r: RewriteV, q: PackageV) -> bool {
    &&& q.items == p.items
    &&& q.entry == p.entry
    &&& q.pats == p.pats
    &&& q.blocks.dom() == p.blocks.dom()
    &&& forall|k: usize| k != r.block.0 ==> #[trigger] q.blocks[k] == p.blocks[k]
    &&& forall|k: usize| #[trigger]
        p.exprs.contains_key(k) ==> q.exprs.contains_key(k) && q.exprs[k] == p.exprs[k]
    &&& forall|k: usize| #[trigger]
        q.exprs.contains_key(k) && !p.exprs.contains_key(k) ==> a.next_expr <= k
            && q.exprs[k].exec_graph_range == no_exec_range() && reads_local(q, ExprId(k))
    &&& forall|k: usize| #[trigger]
        p.stmts.contains_key(k) ==> q.stmts.contains_key(k) && (k != r.stmt.0 ==> q.stmts[k]
            == p.stmts[k])
    &&& forall|k: usize| #[trigger]
        q.stmts.contains_key(k) && !p.stmts.contains_key(k) ==> a.next_stmt <= k
            && q.stmts[k].exec_graph_range == no_exec_range() && binds_leaf(q, StmtId(k))
}

pub proof fn lemma_step(p: PackageV, a: Assigner, r: RewriteV)
    requires
        is_fresh(a, p),
        applicable(p, r),
        has_room(a, rewrite_leaves(p, r).len()),
    ensures
        extends(p, a, r, rewritten(p, a, r)),
        is_fresh(assigner_after(a, rewrite_leaves(p, r).len()), rewritten(p, a, r)),
        rewrite_leaves(p, r).len() > 0 ==> binds_leaf(rewritten(p, a, r), r.stmt),
        rewrite_leaves(p, r).len() == 0 ==> rewritten(p, a, r).stmts == p.stmts
            && rewritten(p, a, r).exprs == p.exprs,
{
    let ls = rewrite_leaves(p, r);
    let q = rewritten(p, a, r);
    assert(q.blocks.dom() =~= p.blocks.dom());
    if ls.len() > 0 {
        let first = p.stmts.insert(
            r.stmt.0,
            Stmt { kind: leaf_let(a, r, ls, 0), ..p.stmts[r.stmt.0] },
        );
        lemma_projections(p.exprs, a.next_expr as nat, r, ls);
        lemma_lets(first, a, r, ls, ls.len());
        lemma_leaves_of_whole(p.pats, r.elems, seq![], p.pat_depth());
        assert forall|k: usize| #[trigger]
            q.exprs.contains_key(k) && !p.exprs.contains_key(k) implies a.next_expr <= k
            && q.exprs[k].exec_graph_range == no_exec_range() && reads_local(q, ExprId(k)) by {
            let j = (k - a.next_expr) / 2;
            let field = projection_id(a.next_expr as nat, j);
            assert(k == a.next_expr + 2 * j || k == field.0);
            assert(q.exprs.contains_key((a.next_expr + 2 * j) as usize));
        }
        assert forall|j: int| 0 <= j < ls.len() implies reads_local(
            q,
            #[trigger] projection_id(a.next_expr as nat, j),
        ) by {
            let field = projection_id(a.next_expr as nat, j);
            let base = ExprId((a.next_expr + 2 * j) as usize);
            assert(q.exprs.contains_key(field.0));
            assert(q.exprs.contains_key(base.0));
        }
        assert forall|k: usize| #[trigger]
            q.stmts.contains_key(k) && !p.stmts.contains_key(k) implies a.next_stmt <= k
            && q.stmts[k].exec_graph_range == no_exec_range() && binds_leaf(q, StmtId(k)) by {
            let j = k - a.next_stmt;
            assert(q.stmts[(a.next_stmt + j) as usize].kind == leaf_let(a, r, ls, j + 1));
            assert(ls[j + 1] == ls[j + 1]);
            assert(reads_local(q, projection_id(a.next_expr as nat, j + 1)));
        }
        assert(reads_local(q, projection_id(a.next_expr as nat, 0)));
        assert(ls[0] == ls[0]);
        assert(q.stmts[r.stmt.0].kind == leaf_let(a, r, ls, 0));
    }
}

/// A rewrite can still be applied after another one.
pub proof fn lemma_still_applicable(p: PackageV, a: Assigner, r: RewriteV, other: RewriteV)
    requires
        is_fresh(a, p),
        applicable(p, r),
        has_room(a, rewrite_leaves(p, r).len()),
        applicable(p, other),
    ensures
        applicable(rewritten(p, a, r), other),
{
    lemma_step(p, a, r);
}

proof fn lemma_spliced(stmts: Seq<StmtId>, at: StmtId, new: Seq<StmtId>)
    ensures
        forall|i: int|
            0 <= i < spliced(stmts, at, new).len() ==> stmts.contains(
                #[trigger] spliced(stmts, at, new)[i],
            ) || (stmts.contains(at) && new.contains(spliced(stmts, at, new)[i])),
        forall|s: StmtId| #[trigger]
            stmts.contains(s) ==> spliced(stmts, at, new).contains(s),
{
    stmts.index_of_first_ensures(at);
    if let Some(pos) = stmts.index_of_first(at) {
        let out = spliced(stmts, at, new);
        assert forall|i: int| 0 <= i < out.len() implies stmts.contains(#[trigger] out[i]) || (
        stmts.contains(at) && new.contains(out[i])) by {
            if i <= pos {
                assert(out[i] == stmts[i]);
            } else if i <= pos + new.len() {
                assert(out[i] == new[i - pos - 1]);
            } else {
                assert(out[i] == stmts[i - new.len()]);
            }
        }
        assert forall|s: StmtId| #[trigger] stmts.contains(s) implies out.contains(s) by {
            let i = stmts.index_of(s);
            if i <= pos {
                assert(out[i] == s);
            } else {
                assert(out[i + new.len()] == s);
            }
        }
    }
}

proof fn lemma_removed(stmts: Seq<StmtId>, at: StmtId)
    ensures
        forall|i: int|
            0 <= i < removed(stmts, at).len() ==> stmts.contains(
                #[trigger] removed(stmts, at)[i],
            ),
        forall|s: StmtId| #[trigger]
            stmts.contains(s) && s != at ==> removed(stmts, at).contains(s),
{
    stmts.index_of_first_ensures(at);
    if let Some(pos) = stmts.index_of_first(at) {
        let out = removed(stmts, at);
        assert forall|i: int| 0 <= i < out.len() implies stmts.contains(#[trigger] out[i]) by {
            if i < pos {
                assert(out[i] == stmts[i]);
            } else {
                assert(out[i] == stmts[i + 1]);
            }
        }
        assert forall|s: StmtId| #[trigger] stmts.contains(s) && s != at implies out.contains(
            s,
        ) by {
            let i = stmts.index_of(s);
            if i < pos {
                assert(out[i] == s);
            } else {
                assert(out[i - 1] == s);
            }
        }
    }
}

/// The statements of the rewritten block: those that were there, and where the rewritten one is
/// among them, the new ones.
pub proof fn lemma_step_stmts(p: PackageV, a: Assigner, r: RewriteV)
    requires
        is_fresh(a, p),
        applicable(p, r),
        has_room(a, rewrite_leaves(p, r).len()),
    ensures
        ({
            let before = p.blocks[r.block.0].stmts;
            let after = rewritten(p, a, r).blocks[r.block.0].stmts;
            &&& forall|i: int|
                0 <= i < after.len() ==> before.contains(#[trigger] after[i]) || (before.contains(
                    r.stmt,
                ) && !p.stmts.contains_key(after[i].0) && binds_leaf(
                    rewritten(p, a, r),
                    after[i],
                ))
            &&& forall|s: StmtId| #[trigger]
                before.contains(s) ==> after.contains(s) || (s == r.stmt && rewrite_leaves(
                    p,
                    r,
                ).len() == 0)
        }),
{
    let ls = rewrite_leaves(p, r);
    let q = rewritten(p, a, r);
    let before = p.blocks[r.block.0].stmts;
    lemma_step(p, a, r);
    if ls.len() == 0 {
        lemma_removed(before, r.stmt);
    } else {
        let new = new_stmt_ids(a, (ls.len() - 1) as nat);
        let first = p.stmts.insert(
            r.stmt.0,
            Stmt { kind: leaf_let(a, r, ls, 0), ..p.stmts[r.stmt.0] },
        );
        lemma_spliced(before, r.stmt, new);
        lemma_lets(first, a, r, ls, ls.len());
        assert forall|s: StmtId| #[trigger] new.contains(s) implies !p.stmts.contains_key(s.0)
            && binds_leaf(q, s) by {
            assert(q.stmts.contains_key(s.0));
            assert(binds_leaf(q, StmtId(s.0)));
        }
    }
}

/// A statement that binds a leaf is whole.
proof fn lemma_binds_leaf_ok(p: PackageV, s: StmtId, depth: nat)
    requires
        binds_leaf(p, s),
        depth >= 3,
    ensures
        p.node_ok(Node::Stmt(s), depth),
{
    let rhs = p.stmts[s.0].kind->Local_2;
    let pat = p.stmts[s.0].kind->Local_1;
    let expr = Node::Expr(rhs);
    assert(pat_ok(p.pats, pat, 1));
    assert(p.pat_depth() >= 1) by {
        lemma_usize_set_finite(p.pats.dom());
        if p.pats.dom().len() == 0 {
            assert(p.pats.dom() =~= Set::empty());
            assert(!p.pats.dom().contains(pat.0));
        }
    }
    lemma_pat_ok_deeper(p.pats, pat, 1, p.pat_depth());
    match p.exprs[rhs.0].kind {
        ExprKindV::Field(base, _) => {
            assert(p.parts(Node::Expr(base)) =~= seq![]);
            assert(p.node_ok(Node::Expr(base), (depth - 2) as nat));
            assert(p.parts(expr) =~= seq![Node::Expr(base)]);
            assert(p.node_ok(expr, (depth - 1) as nat));
        },
        _ => {
            assert(p.parts(expr) =~= seq![]);
            assert(p.node_ok(expr, (depth - 1) as nat));
        },
    }
    assert(p.parts(Node::Stmt(s)) =~= seq![expr]);
}

/// Every set of identifiers is finite.
pub proof fn lemma_usize_set_finite(set: Set<usize>)
    ensures
        set.finite(),
{
    let all = vstd::set_lib::set_int_range(0, usize::MAX + 1).map(|i: int| i as usize);
    vstd::set_lib::lemma_int_range(0, usize::MAX + 1);
    vstd::set_lib::set_int_range(0, usize::MAX + 1).lemma_map_finite(|i: int| i as usize);
    assert forall|k: usize| set.contains(k) implies all.contains(k) by {
        let i = k as int;
        assert(vstd::set_lib::set_int_range(0, usize::MAX + 1).contains(i));
        assert(i as usize == k);
    }
    vstd::set_lib::lemma_set_subset_finite(all, set);
}

/// How much deeper a rewrite of `n` leaves may nest the nodes.
spec fn growth(n: nat) -> nat {
    if n > 0 {
        1
    } else {
        0
    }
}

/// A whole node stays whole.
proof fn lemma_step_node_ok(p: PackageV, a: Assigner, r: RewriteV, node: Node, depth: nat)
    requires
        is_fresh(a, p),
        applicable(p, r),
        has_room(a, rewrite_leaves(p, r).len()),
        p.node_ok(node, depth),
    ensures
        rewritten(p, a, r).node_ok(node, depth + growth(rewrite_leaves(p, r).len())),
    decreases depth,
{
    let q = rewritten(p, a, r);
    let n = rewrite_leaves(p, r).len();
    let deeper = depth + growth(n);
    lemma_step(p, a, r);
    if node == Node::Stmt(r.stmt) && n > 0 {
        assert(p.node_ok(p.parts(node)[0], (depth - 1) as nat));
        lemma_binds_leaf_ok(q, r.stmt, deeper);
    } else {
        assert forall|i: int| 0 <= i < q.parts(node).len() implies q.node_ok(
            #[trigger] q.parts(node)[i],
            (deeper - 1) as nat,
        ) by {
            if node == Node::Block(r.block) {
                let before = p.blocks[r.block.0].stmts;
                let after = q.blocks[r.block.0].stmts;
                lemma_step_stmts(p, a, r);
                let s = after[i];
                assert(q.parts(node)[i] == Node::Stmt(s));
                if before.contains(s) {
                    let j = before.index_of(s);
                    assert(p.parts(node)[j] == Node::Stmt(s));
                    lemma_step_node_ok(p, a, r, Node::Stmt(s), (depth - 1) as nat);
                } else {
                    let j = before.index_of(r.stmt);
                    let stmt = Node::Stmt(r.stmt);
                    assert(p.parts(node)[j] == stmt);
                    assert(p.node_ok(stmt, (depth - 1) as nat));
                    assert(p.node_ok(p.parts(stmt)[0], (depth - 2) as nat));
                    lemma_binds_leaf_ok(q, s, (deeper - 1) as nat);
                }
            } else {
                assert(q.parts(node) == p.parts(node));
                lemma_step_node_ok(p, a, r, p.parts(node)[i], (depth - 1) as nat);
            }
        }
    }
}

proof fn lemma_grown(before: Set<usize>, after: Set<usize>, new: usize)
    requires
        before.subset_of(after),
        after.contains(new),
        !before.contains(new),
    ensures
        before.len() + 1 <= after.len(),
{
    lemma_usize_set_finite(before);
    lemma_usize_set_finite(after);
    assert(before.insert(new).subset_of(after));
    vstd::set_lib::lemma_len_subset(before.insert(new), after);
}

/// The bound on nesting grows with a rewrite by at least as much as the nesting does.
proof fn lemma_step_depth(p: PackageV, a: Assigner, r: RewriteV)
    requires
        is_fresh(a, p),
        applicable(p, r),
        has_room(a, rewrite_leaves(p, r).len()),
    ensures
        rewritten(p, a, r).node_depth() >= p.node_depth() + growth(rewrite_leaves(p, r).len()),
        rewritten(p, a, r).pat_depth() == p.pat_depth(),
{
    let q = rewritten(p, a, r);
    let ls = rewrite_leaves(p, r);
    lemma_step(p, a, r);
    if ls.len() > 0 {
        lemma_projections(p.exprs, a.next_expr as nat, r, ls);
        assert(q.exprs.contains_key(a.next_expr));
        lemma_grown(p.exprs.dom(), q.exprs.dom(), a.next_expr);
        lemma_usize_set_finite(q.stmts.dom());
        assert(p.stmts.dom().subset_of(q.stmts.dom()));
        vstd::set_lib::lemma_len_subset(p.stmts.dom(), q.stmts.dom());
    }
}

/// A whole entry expression and a whole callable stay whole.
proof fn lemma_step_whole(p: PackageV, a: Assigner, r: RewriteV)
    requires
        is_fresh(a, p),
        applicable(p, r),
        has_room(a, rewrite_leaves(p, r).len()),
    ensures
        p.entry_ok() ==> rewritten(p, a, r).entry_ok(),
        forall|decl: CallableDecl| #[trigger]
            p.callable_ok(decl) ==> rewritten(p, a, r).callable_ok(decl),
{
    let q = rewritten(p, a, r);
    let deeper = p.node_depth() + growth(rewrite_leaves(p, r).len());
    lemma_step(p, a, r);
    lemma_step_depth(p, a, r);
    if p.entry_ok() {
        if let Some(e) = q.entry {
            lemma_step_node_ok(p, a, r, Node::Expr(e), p.node_depth());
            lemma_node_ok_deeper(q, Node::Expr(e), deeper, q.node_depth());
        }
    }
    assert forall|decl: CallableDecl| #[trigger] p.callable_ok(decl) implies q.callable_ok(
        decl,
    ) by {
        let roots = body_nodes(decl.implementation);
        assert forall|i: int| 0 <= i < roots.len() implies q.node_ok(
            #[trigger] roots[i],
            q.node_depth(),
        ) by {
            lemma_step_node_ok(p, a, r, roots[i], p.node_depth());
            lemma_node_ok_deeper(q, roots[i], deeper, q.node_depth());
        }
    }
}

/// Whether a node is a block, or an expression that does more than read or project.
pub open spec fn is_kept(p: PackageV, node: Node) -> bool {
    match node {
        Node::Block(_) => true,
        Node::Expr(e) => p.exprs.contains_key(e.0) && (p.exprs[e.0].kind matches ExprKindV::Other(
            _,
        ) || p.exprs[e.0].kind matches ExprKindV::Var(Res::Item(_), _)),
        Node::Stmt(_) => false,
    }
}

/// What is in the walks of several nodes is in the walk of one of them.
pub proof fn lemma_walk_all_contains(p: PackageV, nodes: Seq<Node>, depth: nat, x: Node)
    ensures
        p.walk_all(nodes, depth).contains(x) <==> exists|i: int|
            0 <= i < nodes.len() && p.walk(#[trigger] nodes[i], depth).contains(x),
    decreases nodes.len(),
{
    if nodes.len() > 0 {
        let rest = nodes.drop_last();
        let first = p.walk_all(rest, depth);
        let last = p.walk(nodes.last(), depth);
        let all = p.walk_all(nodes, depth);
        lemma_walk_all_contains(p, rest, depth, x);
        if all.contains(x) {
            let i = all.index_of(x);
            if i < first.len() {
                assert(first[i] == x);
                let j = choose|j: int|
                    0 <= j < rest.len() && p.walk(#[trigger] rest[j], depth).contains(x);
                assert(nodes[j] == rest[j]);
            } else {
                assert(last[i - first.len()] == x);
                assert(p.walk(nodes[nodes.len() - 1], depth).contains(x));
            }
        }
        if exists|i: int| 0 <= i < nodes.len() && p.walk(#[trigger] nodes[i], depth).contains(x) {
            let i = choose|i: int|
                0 <= i < nodes.len() && p.walk(#[trigger] nodes[i], depth).contains(x);
            if i < nodes.len() - 1 {
                assert(p.walk(rest[i], depth).contains(x));
                let j = first.index_of(x);
                assert(all[j] == x);
            } else {
                let j = last.index_of(x);
                assert(all[first.len() + j] == x);
            }
        }
    } else {
        assert(!p.walk_all(nodes, depth).contains(x));
    }
}

/// What is in the walk of a node is the node or in the walk of one of its parts.
pub proof fn lemma_walk_contains(p: PackageV, node: Node, depth: nat, x: Node)
    requires
        depth > 0,
    ensures
        p.walk(node, depth).contains(x) <==> x == node || exists|i: int|
            0 <= i < p.parts(node).len() && p.walk(
                #[trigger] p.parts(node)[i],
                (depth - 1) as nat,
            ).contains(x),
{
    let rest = p.walk_all(p.parts(node), (depth - 1) as nat);
    let all = p.walk(node, depth);
    lemma_walk_all_contains(p, p.parts(node), (depth - 1) as nat, x);
    assert(all[0] == node);
    if all.contains(x) && x != node {
        let i = all.index_of(x);
        assert(rest[i - 1] == x);
    }
    if rest.contains(x) {
        let i = rest.index_of(x);
        assert(all[i + 1] == x);
    }
}

/// A statement that binds what is read from a local variable has nothing else inside.
proof fn lemma_leaf_walk(p: PackageV, s: StmtId, depth: nat, x: Node)
    requires
        p.stmts[s.0].kind matches StmtKind::Local(_, _, rhs) && reads_local(p, rhs),
        is_kept(p, x),
    ensures
        !p.walk(Node::Stmt(s), depth).contains(x),
{
    let stmt = Node::Stmt(s);
    let rhs = p.stmts[s.0].kind->Local_2;
    if depth > 0 {
        lemma_walk_contains(p, stmt, depth, x);
        assert(p.parts(stmt) =~= seq![Node::Expr(rhs)]);
        if depth > 1 {
            lemma_walk_contains(p, Node::Expr(rhs), (depth - 1) as nat, x);
            if let ExprKindV::Field(base, _) = p.exprs[rhs.0].kind {
                if depth > 2 {
                    lemma_walk_contains(p, Node::Expr(base), (depth - 2) as nat, x);
                }
            }
        }
    }
}

/// A rewrite neither adds nor takes out blocks, or expressions that do more than read or project.
proof fn lemma_step_walk(
    p: PackageV,
    a: Assigner,
    r: RewriteV,
    node: Node,
    depth: nat,
    x: Node,
)
    requires
        is_fresh(a, p),
        applicable(p, r),
        has_room(a, rewrite_leaves(p, r).len()),
        p.node_ok(node, depth),
        is_kept(p, x),
    ensures
        p.walk(node, depth).contains(x) <==> rewritten(p, a, r).walk(
            node,
            depth + growth(rewrite_leaves(p, r).len()),
        ).contains(x),
    decreases depth,
{
    let q = rewritten(p, a, r);
    let n = rewrite_leaves(p, r).len();
    let inner = (depth - 1) as nat;
    let deeper = inner + growth(n);
    lemma_step(p, a, r);
    assert(is_kept(q, x));
    lemma_walk_contains(p, node, depth, x);
    lemma_walk_contains(q, node, depth + growth(n), x);
    if node == Node::Stmt(r.stmt) {
        lemma_leaf_walk(p, r.stmt, depth, x);
        lemma_leaf_walk(q, r.stmt, depth + growth(n), x);
    } else if node == Node::Block(r.block) {
        let before = p.blocks[r.block.0].stmts;
        let after = q.blocks[r.block.0].stmts;
        lemma_step_stmts(p, a, r);
        assert forall|i: int|
            0 <= i < before.len() && p.walk(#[trigger] p.parts(node)[i], inner).contains(
                x,
            ) implies exists|j: int|
            0 <= j < after.len() && q.walk(#[trigger] q.parts(node)[j], deeper).contains(x) by {
            let s = before[i];
            assert(p.node_ok(p.parts(node)[i], inner));
            if s == r.stmt {
                lemma_leaf_walk(p, s, inner, x);
            }
            assert(before.contains(s));
            let j = after.index_of(s);
            assert(q.parts(node)[j] == Node::Stmt(s));
            lemma_step_walk(p, a, r, Node::Stmt(s), inner, x);
        }
        assert forall|j: int|
            0 <= j < after.len() && q.walk(#[trigger] q.parts(node)[j], deeper).contains(
                x,
            ) implies exists|i: int|
            0 <= i < before.len() && p.walk(#[trigger] p.parts(node)[i], inner).contains(x) by {
            let s = after[j];
            if before.contains(s) {
                let i = before.index_of(s);
                assert(p.node_ok(p.parts(node)[i], inner));
                assert(p.parts(node)[i] == Node::Stmt(s));
                lemma_step_walk(p, a, r, Node::Stmt(s), inner, x);
            } else {
                lemma_leaf_walk(q, s, deeper, x);
            }
        }
    } else {
        assert(q.parts(node) == p.parts(node));
        assert forall|i: int| 0 <= i < p.parts(node).len() implies p.walk(
            #[trigger] p.parts(node)[i],
            inner,
        ).contains(x) == q.walk(p.parts(node)[i], deeper).contains(x) by {
            assert(p.node_ok(p.parts(node)[i], inner));
            lemma_step_walk(p, a, r, p.parts(node)[i], inner, x);
        }
    }
}

/// The walks of several nodes, as `lemma_step_walk` has it for one.
pub proof fn lemma_step_walk_all(p: PackageV, a: Assigner, r: RewriteV, roots: Seq<Node>, x: Node)
    requires
        is_fresh(a, p),
        applicable(p, r),
        has_room(a, rewrite_leaves(p, r).len()),
        forall|i: int| 0 <= i < roots.len() ==> p.node_ok(#[trigger] roots[i], p.node_depth()),
        is_kept(p, x),
    ensures
        p.walk_all(roots, p.node_depth()).contains(x) <==> rewritten(p, a, r).walk_all(
            roots,
            rewritten(p, a, r).node_depth(),
        ).contains(x),
{
    let q = rewritten(p, a, r);
    let deeper = p.node_depth() + growth(rewrite_leaves(p, r).len());
    lemma_step_depth(p, a, r);
    lemma_walk_all_contains(p, roots, p.node_depth(), x);
    lemma_walk_all_contains(q, roots, q.node_depth(), x);
    assert forall|i: int| 0 <= i < roots.len() implies p.walk(
        #[trigger] roots[i],
        p.node_depth(),
    ).contains(x) == q.walk(roots[i], q.node_depth()).contains(x) by {
        lemma_step_walk(p, a, r, roots[i], p.node_depth(), x);
        lemma_step_node_ok(p, a, r, roots[i], p.node_depth());
        lemma_walk_deeper(q, roots[i], deeper, q.node_depth());
    }
}

/// The same items are named inside the given nodes.
proof fn lemma_step_names(
    p: PackageV,
    a: Assigner,
    r: RewriteV,
    package: PackageId,
    roots: Seq<Node>,
    id: StoreItemId,
)
    requires
        is_fresh(a, p),
        applicable(p, r),
        has_room(a, rewrite_leaves(p, r).len()),
        forall|i: int| 0 <= i < roots.len() ==> p.node_ok(#[trigger] roots[i], p.node_depth()),
    ensures
        nodes_name(p, package, p.walk_all(roots, p.node_depth()), id) <==> nodes_name(
            rewritten(p, a, r),
            package,
            rewritten(p, a, r).walk_all(roots, rewritten(p, a, r).node_depth()),
            id,
        ),
{
    let q = rewritten(p, a, r);
    let before = p.walk_all(roots, p.node_depth());
    let after = q.walk_all(roots, q.node_depth());
    let deeper = p.node_depth() + growth(rewrite_leaves(p, r).len());
    lemma_step(p, a, r);
    lemma_step_depth(p, a, r);
    assert forall|i: int| 0 <= i < roots.len() implies q.node_ok(
        #[trigger] roots[i],
        q.node_depth(),
    ) by {
        lemma_step_node_ok(p, a, r, roots[i], p.node_depth());
        lemma_node_ok_deeper(q, roots[i], deeper, q.node_depth());
    }
    lemma_walk_all_ok(p, roots, p.node_depth());
    lemma_walk_all_ok(q, roots, q.node_depth());
    if nodes_name(p, package, before, id) {
        let i = choose|i: int|
            0 <= i < before.len() && (#[trigger] before[i] matches Node::Expr(e) && named_item(
                package,
                p.exprs[e.0].kind,
            ) == Some(id));
        assert(p.node_ok(before[i], p.node_depth()));
        assert(before.contains(before[i]));
        lemma_step_walk_all(p, a, r, roots, before[i]);
        let j = after.index_of(before[i]);
        assert(after[j] == before[i]);
    }
    if nodes_name(q, package, after, id) {
        let i = choose|i: int|
            0 <= i < after.len() && (#[trigger] after[i] matches Node::Expr(e) && named_item(
                package,
                q.exprs[e.0].kind,
            ) == Some(id));
        assert(q.node_ok(after[i], q.node_depth()));
        let e = after[i]->Expr_0;
        assert(p.exprs.contains_key(e.0)) by {
            if !p.exprs.contains_key(e.0) {
                assert(q.exprs.contains_key(e.0));
                assert(reads_local(q, ExprId(e.0)));
            }
        }
        assert(after.contains(after[i]));
        lemma_step_walk_all(p, a, r, roots, after[i]);
        let j = before.index_of(after[i]);
        assert(before[j] == after[i]);
    }
}

/// A rewrite does not change what a whole callable uses.
proof fn lemma_step_uses(
    store: Map<usize, PackageV>,
    k: usize,
    a: Assigner,
    r: RewriteV,
    user: StoreItemId,
    id: StoreItemId,
)
    requires
        store.contains_key(k),
        is_fresh(a, store[k]),
        applicable(store[k], r),
        has_room(a, rewrite_leaves(store[k], r).len()),
        item_ok(store, user),
    ensures
        item_uses(store.insert(k, rewritten(store[k], a, r)), user, id) == item_uses(
            store,
            user,
            id,
        ),
{
    let p = store[k];
    lemma_step(p, a, r);
    if item_exists(store, user) && user.package.0 == k {
        if let ItemKind::Callable(decl) = p.items[user.item.0].kind {
            lemma_step_names(p, a, r, user.package, body_nodes(decl.implementation), id);
        }
    }
}

/// A rewrite does not change which items can be reached, and leaves them whole.
proof fn lemma_step_reach(
    store: Map<usize, PackageV>,
    k: usize,
    a: Assigner,
    r: RewriteV,
    package: PackageId,
    seeds: Seq<StoreItemId>,
)
    requires
        store.contains_key(k),
        is_fresh(a, store[k]),
        applicable(store[k], r),
        has_room(a, rewrite_leaves(store[k], r).len()),
        reach_ok(store, package, seeds),
    ensures
        reachable_set(store.insert(k, rewritten(store[k], a, r)), package, seeds)
            == reachable_set(store, package, seeds),
        reach_ok(store.insert(k, rewritten(store[k], a, r)), package, seeds),
{
    let p = store[k];
    let q = rewritten(p, a, r);
    let after = store.insert(k, q);
    let before_set = reachable_set(store, package, seeds);
    let after_set = reachable_set(after, package, seeds);
    lemma_step(p, a, r);
    lemma_step_whole(p, a, r);
    assert forall|id: StoreItemId| #[trigger]
        is_root(after, package, seeds, id) == is_root(store, package, seeds, id) by {
        if package.0 == k {
            if let Some(e) = p.entry {
                lemma_step_names(p, a, r, package, seq![Node::Expr(e)], id);
            }
        }
    }
    assert forall|id: StoreItemId| #[trigger]
        is_root(after, package, seeds, id) implies before_set.contains(id) by {
        lemma_root_reachable(store, package, seeds, id);
    }
    assert forall|user: StoreItemId, id: StoreItemId|
        before_set.contains(user) && #[trigger] item_uses(
            after,
            user,
            id,
        ) implies before_set.contains(id) by {
        assert(item_ok(store, user));
        lemma_step_uses(store, k, a, r, user, id);
        lemma_step_reachable(store, package, seeds, user, id);
    }
    lemma_reachable_least(after, package, seeds, before_set);
    assert forall|id: StoreItemId| #[trigger]
        is_root(store, package, seeds, id) implies after_set.contains(id) by {
        assert(is_root(after, package, seeds, id));
        lemma_root_reachable(after, package, seeds, id);
    }
    assert forall|user: StoreItemId, id: StoreItemId|
        after_set.contains(user) && #[trigger] item_uses(
            store,
            user,
            id,
        ) implies after_set.contains(id) by {
        assert(before_set.contains(user));
        assert(item_ok(store, user));
        lemma_step_uses(store, k, a, r, user, id);
        lemma_step_reachable(after, package, seeds, user, id);
    }
    lemma_reachable_least(store, package, seeds, after_set);
    assert(after_set =~= before_set);
    assert forall|id: StoreItemId| #[trigger]
        is_reachable(after, package, seeds, id) implies item_ok(after, id) by {
        assert(after_set.contains(id));
        assert(is_reachable(store, package, seeds, id));
        assert(item_ok(store, id));
    }
}

/// What normalization leaves as it is, and what it adds. Items, the entry expression, patterns and
/// expressions stay as they are; a statement stays as it is or binds a leaf; blocks change in
/// their statements alone. What is new has an identifier that was free and an empty execution
/// graph range, and reads a local variable or binds what is read from one.
pub open spec fn only_adds_leaves(p: PackageV, a: Assigner, q: PackageV) -> bool {
    &&& q.items == p.items
    &&& q.entry == p.entry
    &&& q.pats == p.pats
    &&& q.blocks.dom() == p.blocks.dom()
    &&& forall|k: usize| #[trigger]
        p.blocks.contains_key(k) ==> q.blocks[k] == (BlockV {
            stmts: q.blocks[k].stmts,
            ..p.blocks[k]
        })
    &&& forall|k: usize| #[trigger]
        p.exprs.contains_key(k) ==> q.exprs.contains_key(k) && q.exprs[k] == p.exprs[k]
    &&& forall|k: usize| #[trigger]
        q.exprs.contains_key(k) && !p.exprs.contains_key(k) ==> a.next_expr <= k
            && q.exprs[k].exec_graph_range == no_exec_range() && reads_local(q, ExprId(k))
    &&& forall|k: usize| #[trigger]
        p.stmts.contains_key(k) ==> q.stmts.contains_key(k) && q.stmts[k] == (Stmt {
            kind: q.stmts[k].kind,
            ..p.stmts[k]
        }) && (q.stmts[k].kind == p.stmts[k].kind || binds_leaf(q, StmtId(k)))
    &&& forall|k: usize| #[trigger]
        q.stmts.contains_key(k) && !p.stmts.contains_key(k) ==> a.next_stmt <= k
            && q.stmts[k].exec_graph_range == no_exec_range() && binds_leaf(q, StmtId(k))
}

proof fn lemma_step_adds_leaves(
    p: PackageV,
    a: Assigner,
    q: PackageV,
    b: Assigner,
    r: RewriteV,
)
    requires
        only_adds_leaves(p, a, q),
        a.next_expr <= b.next_expr,
        a.next_stmt <= b.next_stmt,
        is_fresh(b, q),
        applicable(q, r),
        has_room(b, rewrite_leaves(q, r).len()),
    ensures
        only_adds_leaves(p, a, rewritten(q, b, r)),
{
    let z = rewritten(q, b, r);
    lemma_step(q, b, r);
    assert forall|e: ExprId| #[trigger] reads_local(q, e) implies reads_local(z, e) by {}
    assert forall|s: StmtId| #[trigger] binds_leaf(q, s) implies binds_leaf(z, s) by {
        if rewrite_leaves(q, r).len() == 0 || s != r.stmt {
            assert(q.stmts.contains_key(s.0));
            assert(z.stmts[s.0] == q.stmts[s.0]);
        }
    }
    assert forall|k: usize| #[trigger] q.stmts.contains_key(k) implies z.stmts[k] == (Stmt {
        kind: z.stmts[k].kind,
        ..q.stmts[k]
    }) by {
        let ls = rewrite_leaves(q, r);
        if k == r.stmt.0 && ls.len() > 0 {
            let first = q.stmts.insert(
                r.stmt.0,
                Stmt { kind: leaf_let(b, r, ls, 0), ..q.stmts[r.stmt.0] },
            );
            lemma_lets(first, b, r, ls, ls.len());
            assert(z.stmts[k] == first[k]);
        }
    }
    assert forall|k: usize| #[trigger]
        z.stmts.contains_key(k) && !p.stmts.contains_key(k) implies a.next_stmt <= k
        && z.stmts[k].exec_graph_range == no_exec_range() && binds_leaf(z, StmtId(k)) by {
        if q.stmts.contains_key(k) {
            assert(binds_leaf(q, StmtId(k)));
        }
    }
    assert forall|k: usize| #[trigger] p.stmts.contains_key(k) implies z.stmts.contains_key(k)
        && z.stmts[k] == (Stmt { kind: z.stmts[k].kind, ..p.stmts[k] }) && (z.stmts[k].kind
        == p.stmts[k].kind || binds_leaf(z, StmtId(k))) by {
        assert(q.stmts.contains_key(k));
        assert(z.stmts[k] == (Stmt { kind: z.stmts[k].kind, ..q.stmts[k] }));
        if q.stmts[k].kind != p.stmts[k].kind {
            assert(binds_leaf(q, StmtId(k)));
        }
    }
    assert forall|k: usize| #[trigger]
        z.exprs.contains_key(k) && !p.exprs.contains_key(k) implies a.next_expr <= k
        && z.exprs[k].exec_graph_range == no_exec_range() && reads_local(z, ExprId(k)) by {
        if q.exprs.contains_key(k) {
            assert(reads_local(q, ExprId(k)));
        }
    }
    assert forall|k: usize| #[trigger] p.blocks.contains_key(k) implies z.blocks[k] == (BlockV {
        stmts: z.blocks[k].stmts,
        ..p.blocks[k]
    }) by {
        assert(z.blocks[k] == (BlockV { stmts: z.blocks[k].stmts, ..q.blocks[k] }));
    }
}

/// What holds of a store after any number of rewrites in one of its packages.
pub proof fn lemma_normalized(
    store: Map<usize, PackageV>,
    k: usize,
    a: Assigner,
    rs: Seq<RewriteV>,
)
    requires
        store.contains_key(k),
        is_fresh(a, store[k]),
        forall|i: int| 0 <= i < rs.len() ==> applicable(store[k], #[trigger] rs[i]),
        has_room(a, leaf_count(store[k], rs)),
    ensures
        only_adds_leaves(store[k], a, normalized(store[k], a, rs).0),
        is_fresh(normalized(store[k], a, rs).1, normalized(store[k], a, rs).0),
        forall|r: RewriteV| #[trigger]
            applicable(store[k], r) ==> applicable(normalized(store[k], a, rs).0, r),
        forall|decl: CallableDecl| #[trigger]
            store[k].callable_ok(decl) ==> normalized(store[k], a, rs).0.callable_ok(decl),
        forall|package: PackageId, seeds: Seq<StoreItemId>| #[trigger]
            reach_ok(store, package, seeds) ==> reach_ok(
                store.insert(k, normalized(store[k], a, rs).0),
                package,
                seeds,
            ) && reachable_set(store.insert(k, normalized(store[k], a, rs).0), package, seeds)
                == reachable_set(store, package, seeds),
    decreases rs.len(),
{
    let p = store[k];
    if rs.len() == 0 {
        assert(store.insert(k, p) =~= store);
    } else {
        let rest = rs.drop_last();
        let r = rs.last();
        assert forall|i: int| 0 <= i < rest.len() implies applicable(p, #[trigger] rest[i]) by {
            assert(applicable(p, rs[i]));
        }
        assert(applicable(p, rs[rs.len() - 1]));
        lemma_normalized(store, k, a, rest);
        lemma_normalized_frame(p, a, rest);
        let (q, b) = normalized(p, a, rest);
        let mid = store.insert(k, q);
        assert(mid.insert(k, rewritten(q, b, r)) =~= store.insert(k, rewritten(q, b, r)));
        assert(mid.contains_key(k) && mid[k] == q);
        lemma_step(q, b, r);
        lemma_step_adds_leaves(p, a, q, b, r);
        lemma_step_whole(q, b, r);
        assert forall|other: RewriteV| #[trigger] applicable(p, other) implies applicable(
            rewritten(q, b, r),
            other,
        ) by {
            lemma_still_applicable(q, b, r, other);
        }
        assert forall|package: PackageId, seeds: Seq<StoreItemId>| #[trigger]
            reach_ok(store, package, seeds) implies reach_ok(
            store.insert(k, rewritten(q, b, r)),
            package,
            seeds,
        ) && reachable_set(store.insert(k, rewritten(q, b, r)), package, seeds) == reachable_set(
            store,
            package,
            seeds,
        ) by {
            assert(reach_ok(mid, package, seeds));
            lemma_step_reach(mid, k, b, r, package, seeds);
        }
    }
}

/// Normalizing a package leaves whole what can be reached, and the assigner ahead of every
/// identifier. It does not change what can be reached, from any package and any seeds, and
/// changes nothing but what `only_adds_leaves` says.
pub proof fn lemma_normalization_keeps(
    store: Map<usize, PackageV>,
    package: PackageId,
    a: Assigner,
)
    requires
        reach_ok(store, package, Seq::empty()),
        is_fresh(a, store[package.0]),
        has_room(a, leaf_count(store[package.0], package_rewrites(store, package))),
    ensures
        ({
            let p = store[package.0];
            let (q, b) = normalized(p, a, package_rewrites(store, package));
            let after = store.insert(package.0, q);
            &&& only_adds_leaves(p, a, q)
            &&& is_fresh(b, q)
            &&& forall|from: PackageId, seeds: Seq<StoreItemId>| #[trigger]
                reach_ok(store, from, seeds) ==> reach_ok(after, from, seeds) && reachable_set(
                    after,
                    from,
                    seeds,
                ) == reachable_set(store, from, seeds)
        }),
{
    let p = store[package.0];
    let rs = package_rewrites(store, package);
    lemma_package_rewrites(store, package);
    assert forall|i: int| 0 <= i < rs.len() implies applicable(p, #[trigger] rs[i]) by {
        lemma_applicable(p, rs[i]);
    }
    lemma_normalized(store, package.0, a, rs);
}

} // verus!
