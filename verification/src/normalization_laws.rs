//! What normalizing tuple destructuring is for: which statements there are before and after it,
//! and what each of the new ones binds.

use vstd::prelude::*;

use crate::assigner::{is_fresh, Assigner};
use crate::fir::{
    BlockId, ExecRange, ExprId, ExprKindV, ExprV, ItemKind, LocalItemId, PackageId, PackageV, Pat,
    PatId, PatKind, Res, Span, Stmt, StmtId, StmtKind, StoreItemId, TyV,
};
use crate::idempotence::{
    entries, is_walked, lemma_items_entries, lemma_items_source, lemma_normalization_is_idempotent,
    lemma_occurs,
};
use crate::index_map::{keys_in_order, lemma_keys_below};
use crate::preservation::{
    lemma_lets, lemma_normalization_keeps, lemma_normalized, lemma_projections, lemma_step,
    lemma_step_stmts,
};
use crate::reachability::{reach_ok, reachable_set};
use crate::tuple_destructuring::{
    all_called_for, applicable, destructures, has_room, is_called_for, leaf_count, leaf_let, leaves,
    leaves_of, lemma_applicable, lemma_normalized_frame, lemma_package_rewrites, lemma_stmt_whole,
    new_stmt_ids, normalized, package_rewrites, projection_id, rewrite_leaves, rewritten,
    stmt_rewrite, LeafV, RewriteV,
};
use crate::walk::{lemma_pat_ok_deeper, pat_ok, Node};

verus! {

/// There is something to rewrite exactly if some reachable callable of the package has a block with
/// a `let` of a tuple pattern whose right-hand side is a local variable of a tuple type with as
/// many elements as the pattern, however many these are.
pub proof fn lemma_what_is_rewritten(store: Map<usize, PackageV>, package: PackageId)
    requires
        reach_ok(store, package, Seq::empty()),
    ensures
        ({
            let p = store[package.0];
            package_rewrites(store, package).len() > 0 <==> exists|
                item: usize,
                b: BlockId,
                s: StmtId,
            |
                {
                    &&& #[trigger] p.items.contains_key(item)
                    &&& reachable_set(store, package, Seq::empty()).contains(
                        StoreItemId { package, item: LocalItemId(item) },
                    )
                    &&& p.items[item].kind matches ItemKind::Callable(decl)
                        && p.callable_walk(decl.implementation).contains(Node::Block(b))
                    &&& #[trigger] p.blocks[b.0].stmts.contains(s)
                    &&& p.stmts[s.0].kind matches StmtKind::Local(_, pat, rhs) && match (
                        p.pats[pat.0].kind,
                        p.exprs[rhs.0].kind,
                        p.exprs[rhs.0].ty,
                    ) {
                        (
                            PatKind::Tuple(elems),
                            ExprKindV::Var(Res::Local(_), _),
                            TyV::Tuple(tys),
                        ) => elems@.len() == tys.len(),
                        _ => false,
                    }
                }
        }),
{
    let p = store[package.0];
    let rs = package_rewrites(store, package);
    let reachable = reachable_set(store, package, Seq::empty());
    let items = keys_in_order(p.items.dom());
    lemma_package_rewrites(store, package);
    lemma_keys_below(p.items.dom(), usize::MAX as nat + 1);
    if rs.len() > 0 {
        let r = rs[0];
        assert(is_called_for(p, rs[0]));
        assert(rs.contains(r));
        lemma_items_source(p, package, reachable, items, r);
        let item = choose|item: usize|
            items.contains(item) && #[trigger] is_walked(p, package, reachable, item, r.block);
        assert(p.items.contains_key(item));
        assert(p.blocks[r.block.0].stmts.contains(r.stmt));
    }
    assert forall|item: usize, b: BlockId, s: StmtId|
        {
            &&& #[trigger] p.items.contains_key(item)
            &&& is_walked(p, package, reachable, item, b)
            &&& #[trigger] p.blocks[b.0].stmts.contains(s)
            &&& stmt_rewrite(p, b, s) is Some
        } implies rs.len() > 0 by {
        assert(items.contains(item));
        lemma_items_entries(p, package, reachable, items, item, b, s);
        lemma_occurs(p.blocks[b.0].stmts, s);
    }
}

/// There is something to rewrite exactly if the package takes a local variable apart.
pub proof fn lemma_destructures(store: Map<usize, PackageV>, package: PackageId)
    requires
        reach_ok(store, package, Seq::empty()),
    ensures
        destructures(store, package) <==> package_rewrites(store, package).len() > 0,
{
    lemma_what_is_rewritten(store, package);
}

/// After normalization, no block of a reachable callable of the package has a `let` of a tuple
/// pattern whose right-hand side is a local variable of a tuple type with as many elements as the
/// pattern, however many these are.
pub proof fn lemma_nothing_is_left(
    store: Map<usize, PackageV>,
    package: PackageId,
    a: Assigner,
    item: usize,
    b: BlockId,
    s: StmtId,
)
    requires
        reach_ok(store, package, Seq::empty()),
        is_fresh(a, store[package.0]),
        has_room(a, leaf_count(store[package.0], package_rewrites(store, package))),
    ensures
        ({
            let q = normalized(store[package.0], a, package_rewrites(store, package)).0;
            let after = store.insert(package.0, q);
            ({
                &&& q.items.contains_key(item)
                &&& reachable_set(after, package, Seq::empty()).contains(
                    StoreItemId { package, item: LocalItemId(item) },
                )
                &&& q.items[item].kind matches ItemKind::Callable(decl)
                    && q.callable_walk(decl.implementation).contains(Node::Block(b))
                &&& q.blocks[b.0].stmts.contains(s)
            }) ==> (q.stmts[s.0].kind matches StmtKind::Local(_, pat, rhs) ==> match (
                q.pats[pat.0].kind,
                q.exprs[rhs.0].kind,
                q.exprs[rhs.0].ty,
            ) {
                (
                    PatKind::Tuple(elems),
                    ExprKindV::Var(Res::Local(_), _),
                    TyV::Tuple(tys),
                ) => elems@.len() != tys.len(),
                _ => true,
            })
        }),
{
    let q = normalized(store[package.0], a, package_rewrites(store, package)).0;
    let after = store.insert(package.0, q);
    lemma_normalization_keeps(store, package, a);
    lemma_normalization_is_idempotent(store, package, a);
    assert(after[package.0] == q);
    assert(reach_ok(after, package, Seq::empty()));
    lemma_what_is_rewritten(after, package);
}

/// Whether a path leads from one pattern to another: at each index to that element of a tuple
/// pattern.
pub open spec fn leads_to(pats: Map<usize, Pat>, from: PatId, path: Seq<usize>, to: PatId) -> bool
    decreases path.len(),
{
    if path.len() == 0 {
        from == to
    } else {
        &&& pats[from.0].kind matches PatKind::Tuple(subs) && path[0] < subs@.len() && leads_to(
            pats,
            subs@[path[0] as int],
            path.skip(1),
            to,
        )
    }
}

/// Whether the first path stands to the left of the second one: they part at some index, where
/// the first has the smaller one.
pub open spec fn is_left_of(x: Seq<usize>, y: Seq<usize>) -> bool {
    exists|k: int|
        0 <= k < x.len() && k < y.len() && x.take(k) == y.take(k) && #[trigger] x[k]
            < #[trigger] y[k]
}

proof fn lemma_leaves(pats: Map<usize, Pat>, id: PatId, base: Seq<usize>, depth: nat)
    requires
        pat_ok(pats, id, depth),
    ensures
        ({
            let ls = leaves(pats, id, base, depth);
            &&& forall|j: int|
                0 <= j < ls.len() ==> base.is_prefix_of((#[trigger] ls[j]).path) && leads_to(
                    pats,
                    id,
                    ls[j].path.skip(base.len() as int),
                    ls[j].pat,
                ) && pats[ls[j].pat.0].kind is Bind && ls[j].ty == pats[ls[j].pat.0].ty@
            &&& forall|i: int, j: int|
                0 <= i < j < ls.len() ==> is_left_of(
                    (#[trigger] ls[i]).path,
                    (#[trigger] ls[j]).path,
                )
        }),
    decreases depth, 0nat,
{
    let ls = leaves(pats, id, base, depth);
    match pats[id.0].kind {
        PatKind::Bind(_) => {
            assert(ls[0].path.skip(base.len() as int) =~= seq![]);
        },
        PatKind::Discard => {},
        PatKind::Tuple(subs) => {
            assert(subs.len() == subs@.len());
            lemma_leaves_of(pats, subs@, base, (depth - 1) as nat);
            assert forall|j: int| 0 <= j < ls.len() implies leads_to(
                pats,
                id,
                (#[trigger] ls[j]).path.skip(base.len() as int),
                ls[j].pat,
            ) by {
                let tail = ls[j].path.skip(base.len() as int);
                assert(tail.skip(1) =~= ls[j].path.skip(base.len() as int + 1));
            }
        },
    }
}

proof fn lemma_leaves_of(pats: Map<usize, Pat>, subs: Seq<PatId>, base: Seq<usize>, depth: nat)
    requires
        forall|i: int| 0 <= i < subs.len() ==> pat_ok(pats, #[trigger] subs[i], depth),
        subs.len() <= usize::MAX,
    ensures
        ({
            let ls = leaves_of(pats, subs, base, depth);
            &&& forall|j: int|
                0 <= j < ls.len() ==> {
                    let at = base.len() as int;
                    &&& base.is_prefix_of((#[trigger] ls[j]).path)
                    &&& at < ls[j].path.len()
                    &&& ls[j].path[at] < subs.len()
                    &&& leads_to(
                        pats,
                        subs[ls[j].path[at] as int],
                        ls[j].path.skip(at + 1),
                        ls[j].pat,
                    )
                    &&& pats[ls[j].pat.0].kind is Bind
                    &&& ls[j].ty == pats[ls[j].pat.0].ty@
                }
            &&& forall|i: int, j: int|
                0 <= i < j < ls.len() ==> is_left_of(
                    (#[trigger] ls[i]).path,
                    (#[trigger] ls[j]).path,
                )
        }),
    decreases depth, subs.len(),
{
    if subs.len() > 0 {
        let rest = subs.drop_last();
        let at = base.len() as int;
        let last = (subs.len() - 1) as usize;
        let ls = leaves_of(pats, subs, base, depth);
        let xs = leaves_of(pats, rest, base, depth);
        let ys = leaves(pats, subs.last(), base.push(last), depth);
        assert forall|i: int| 0 <= i < rest.len() implies pat_ok(
            pats,
            #[trigger] rest[i],
            depth,
        ) by {
            assert(rest[i] == subs[i]);
        }
        assert(pat_ok(pats, subs[subs.len() - 1], depth));
        lemma_leaves_of(pats, rest, base, depth);
        lemma_leaves(pats, subs.last(), base.push(last), depth);
        assert forall|j: int| 0 <= j < ys.len() implies base.is_prefix_of((#[trigger] ys[j]).path)
            && at < ys[j].path.len() && ys[j].path[at] == last && ys[j].path.skip(at + 1)
            == ys[j].path.skip(base.push(last).len() as int) by {
            let path = ys[j].path;
            assert(base.push(last).is_prefix_of(path));
            assert(path.take(at + 1) =~= base.push(last));
            assert(path[at] == path.take(at + 1)[at]);
            assert(path.take(at) =~= base);
        }
        assert forall|j: int| 0 <= j < ls.len() implies {
            &&& base.is_prefix_of((#[trigger] ls[j]).path)
            &&& at < ls[j].path.len()
            &&& ls[j].path[at] < subs.len()
            &&& leads_to(
                pats,
                subs[ls[j].path[at] as int],
                ls[j].path.skip(at + 1),
                ls[j].pat,
            )
            &&& pats[ls[j].pat.0].kind is Bind
            &&& ls[j].ty == pats[ls[j].pat.0].ty@
        } by {
            if j < xs.len() {
                assert(ls[j] == xs[j]);
                assert(rest[xs[j].path[at] as int] == subs[xs[j].path[at] as int]);
            } else {
                assert(ls[j] == ys[j - xs.len()]);
            }
        }
        assert forall|i: int, j: int| 0 <= i < j < ls.len() implies is_left_of(
            (#[trigger] ls[i]).path,
            (#[trigger] ls[j]).path,
        ) by {
            if j < xs.len() {
                assert(ls[i] == xs[i] && ls[j] == xs[j]);
            } else if i >= xs.len() {
                assert(ls[i] == ys[i - xs.len()] && ls[j] == ys[j - xs.len()]);
            } else {
                assert(ls[i] == xs[i] && ls[j] == ys[j - xs.len()]);
                let (x, y) = (ls[i].path, ls[j].path);
                assert(base.is_prefix_of(x) && base.is_prefix_of(y));
                assert(x.take(at) =~= y.take(at));
                assert(x[at] < y[at]);
            }
        }
    }
}

proof fn lemma_leaf_found(
    pats: Map<usize, Pat>,
    id: PatId,
    base: Seq<usize>,
    depth: nat,
    tail: Seq<usize>,
    to: PatId,
)
    requires
        pat_ok(pats, id, depth),
        leads_to(pats, id, tail, to),
        pats[to.0].kind is Bind,
    ensures
        leaves(pats, id, base, depth).contains(
            LeafV { pat: to, path: base + tail, ty: pats[to.0].ty@ },
        ),
    decreases depth, 0nat,
{
    let leaf = LeafV { pat: to, path: base + tail, ty: pats[to.0].ty@ };
    match pats[id.0].kind {
        PatKind::Bind(_) => {
            assert(base + tail =~= base);
            assert(leaves(pats, id, base, depth)[0] == leaf);
        },
        PatKind::Discard => {},
        PatKind::Tuple(subs) => {
            assert(subs.len() == subs@.len());
            lemma_leaf_found_among(pats, subs@, base, (depth - 1) as nat, tail, to);
        },
    }
}

proof fn lemma_leaf_found_among(
    pats: Map<usize, Pat>,
    subs: Seq<PatId>,
    base: Seq<usize>,
    depth: nat,
    tail: Seq<usize>,
    to: PatId,
)
    requires
        forall|i: int| 0 <= i < subs.len() ==> pat_ok(pats, #[trigger] subs[i], depth),
        subs.len() <= usize::MAX,
        tail.len() > 0,
        tail[0] < subs.len(),
        leads_to(pats, subs[tail[0] as int], tail.skip(1), to),
        pats[to.0].kind is Bind,
    ensures
        leaves_of(pats, subs, base, depth).contains(
            LeafV { pat: to, path: base + tail, ty: pats[to.0].ty@ },
        ),
    decreases depth, subs.len(),
{
    let leaf = LeafV { pat: to, path: base + tail, ty: pats[to.0].ty@ };
    let rest = subs.drop_last();
    let last = (subs.len() - 1) as usize;
    let xs = leaves_of(pats, rest, base, depth);
    let ys = leaves(pats, subs.last(), base.push(last), depth);
    if tail[0] < last {
        assert forall|i: int| 0 <= i < rest.len() implies pat_ok(
            pats,
            #[trigger] rest[i],
            depth,
        ) by {
            assert(rest[i] == subs[i]);
        }
        assert(rest[tail[0] as int] == subs[tail[0] as int]);
        lemma_leaf_found_among(pats, rest, base, depth, tail, to);
        assert((xs + ys)[xs.index_of(leaf)] == leaf);
    } else {
        assert(pat_ok(pats, subs[subs.len() - 1], depth));
        lemma_leaf_found(pats, subs.last(), base.push(last), depth, tail.skip(1), to);
        assert(base.push(last) + tail.skip(1) =~= base + tail);
        assert((xs + ys)[xs.len() + ys.index_of(leaf)] == leaf);
    }
}

/// The variables that a tuple pattern binds are the patterns inside it that bind one, at whatever
/// depth, each with the path that leads to it and its own type, from left to right.
pub proof fn lemma_variables_of_a_pattern(
    p: PackageV,
    pat: PatId,
    elems: Vec<PatId>,
    r: RewriteV,
)
    requires
        pat_ok(p.pats, pat, p.pat_depth()),
        p.pats[pat.0].kind == PatKind::Tuple(elems),
        r.elems == elems@,
    ensures
        ({
            let ls = rewrite_leaves(p, r);
            &&& forall|j: int|
                0 <= j < ls.len() ==> leads_to(p.pats, pat, (#[trigger] ls[j]).path, ls[j].pat)
                    && p.pats[ls[j].pat.0].kind is Bind && ls[j].ty == p.pats[ls[j].pat.0].ty@
            &&& forall|path: Seq<usize>, to: PatId| #[trigger]
                leads_to(p.pats, pat, path, to) && p.pats[to.0].kind is Bind ==> ls.contains(
                    LeafV { pat: to, path, ty: p.pats[to.0].ty@ },
                )
            &&& forall|i: int, j: int|
                0 <= i < j < ls.len() ==> is_left_of(
                    (#[trigger] ls[i]).path,
                    (#[trigger] ls[j]).path,
                )
        }),
{
    let ls = rewrite_leaves(p, r);
    let depth = p.pat_depth();
    assert(elems.len() == elems@.len());
    assert(pat_ok(p.pats, pat, depth));
    assert forall|i: int| 0 <= i < elems@.len() implies pat_ok(
        p.pats,
        #[trigger] elems@[i],
        depth,
    ) by {
        let subs = p.pats[pat.0].kind->Tuple_0;
        assert(subs@[i] == elems@[i]);
        assert(pat_ok(p.pats, subs@[i], (depth - 1) as nat));
        lemma_pat_ok_deeper(p.pats, elems@[i], (depth - 1) as nat, depth);
    }
    lemma_leaves_of(p.pats, elems@, seq![], depth);
    assert forall|j: int| 0 <= j < ls.len() implies leads_to(
        p.pats,
        pat,
        (#[trigger] ls[j]).path,
        ls[j].pat,
    ) by {
        let at = Seq::<usize>::empty().len() as int;
        assert(at + 1 == 1);
    }
    assert forall|path: Seq<usize>, to: PatId| #[trigger]
        leads_to(p.pats, pat, path, to) && p.pats[to.0].kind is Bind implies ls.contains(
        LeafV { pat: to, path, ty: p.pats[to.0].ty@ },
    ) by {
        lemma_leaf_found_among(p.pats, elems@, seq![], depth, path, to);
        assert(Seq::<usize>::empty() + path =~= path);
    }
}

/// What one rewrite does to a `let` that takes a local variable apart. Each variable of the pattern
/// is bound, as mutable as before, by a projection of its own type out of a new read of that same
/// local variable, of the same type as before. The first is bound by the statement itself, which
/// otherwise stays as it is, the others by new statements right after it, in order; where the
/// pattern binds nothing, the statement goes. Everything new knows its own identifier, comes from
/// no source text and has no place in an execution graph.
pub proof fn lemma_one_rewrite(
    p: PackageV,
    a: Assigner,
    block: BlockId,
    stmt: StmtId,
    r: RewriteV,
)
    requires
        is_fresh(a, p),
        is_called_for(p, r),
        r.block == block,
        r.stmt == stmt,
        has_room(a, rewrite_leaves(p, r).len()),
    ensures
        ({
            let q = rewritten(p, a, r);
            let ls = rewrite_leaves(p, r);
            let pos = p.blocks[block.0].stmts.index_of_first(stmt)->0;
            let before = p.blocks[block.0].stmts;
            let after = q.blocks[block.0].stmts;
            &&& p.stmts[stmt.0].kind matches StmtKind::Local(mutability, pat, rhs)
                && p.pats[pat.0].kind matches PatKind::Tuple(elems)
                && p.exprs[rhs.0].kind matches ExprKindV::Var(Res::Local(source), _) && {
                &&& r.elems == elems@
                &&& forall|j: int|
                    #![trigger ls[j]]
                    0 <= j < ls.len() ==> {
                        let base = ExprId((a.next_expr + 2 * j) as usize);
                        let field = ExprId((a.next_expr + 2 * j + 1) as usize);
                        let id = StmtId((a.next_stmt + j - 1) as usize);
                        let kind = StmtKind::Local(mutability, ls[j].pat, field);
                        &&& q.exprs[base.0] == (ExprV {
                            id: base,
                            span: Span { lo: 0, hi: 0 },
                            ty: p.exprs[rhs.0].ty,
                            kind: ExprKindV::Var(Res::Local(source), seq![]),
                            exec_graph_range: ExecRange { start: 0, end: 0 },
                        })
                        &&& q.exprs[field.0] == (ExprV {
                            id: field,
                            span: Span { lo: 0, hi: 0 },
                            ty: p.pats[ls[j].pat.0].ty@,
                            kind: ExprKindV::Field(base, ls[j].path),
                            exec_graph_range: ExecRange { start: 0, end: 0 },
                        })
                        &&& j == 0 ==> q.stmts[stmt.0] == (Stmt { kind, ..p.stmts[stmt.0] })
                        &&& j > 0 ==> q.stmts[id.0] == (Stmt {
                            id,
                            span: Span { lo: 0, hi: 0 },
                            kind,
                            exec_graph_range: ExecRange { start: 0, end: 0 },
                        })
                        &&& j > 0 ==> after[pos + j] == id
                    }
            }
            &&& 0 <= pos < before.len() && before[pos] == stmt
            &&& forall|i: int| 0 <= i < pos ==> #[trigger] before[i] != stmt
            &&& after.len() == before.len() + ls.len() - 1
            &&& forall|i: int| 0 <= i < pos ==> #[trigger] after[i] == before[i]
            &&& ls.len() > 0 ==> after[pos] == stmt
            &&& forall|i: int|
                pos < i < before.len() ==> after[i + ls.len() - 1] == #[trigger] before[i]
        }),
{
    let q = rewritten(p, a, r);
    let ls = rewrite_leaves(p, r);
    let before = p.blocks[block.0].stmts;
    lemma_applicable(p, r);
    lemma_stmt_whole(p, block, stmt);
    before.index_of_first_ensures(stmt);
    let pos = before.index_of_first(stmt)->0;
    let pat = p.stmts[stmt.0].kind->Local_1;
    let elems = p.pats[pat.0].kind->Tuple_0;
    lemma_variables_of_a_pattern(p, pat, elems, r);
    if ls.len() > 0 {
        let first = p.stmts.insert(
            stmt.0,
            Stmt { kind: leaf_let(a, r, ls, 0), ..p.stmts[stmt.0] },
        );
        lemma_projections(p.exprs, a.next_expr as nat, r, ls);
        lemma_lets(first, a, r, ls, ls.len());
        let new = new_stmt_ids(a, (ls.len() - 1) as nat);
        let after = q.blocks[block.0].stmts;
        assert(after == before.take(pos + 1) + new + before.skip(pos + 1));
        assert forall|j: int|
            #![trigger ls[j]]
            0 <= j < ls.len() implies q.exprs[(a.next_expr + 2 * j) as usize].id.0 == a.next_expr
            + 2 * j && q.exprs[(a.next_expr + 2 * j + 1) as usize].kind == ExprKindV::Field(
            ExprId((a.next_expr + 2 * j) as usize),
            ls[j].path,
        ) && (j > 0 ==> q.stmts[(a.next_stmt + j - 1) as usize].kind == leaf_let(a, r, ls, j)
            && after[pos + j].0 == a.next_stmt + j - 1) by {
            let field = projection_id(a.next_expr as nat, j);
            if j > 0 {
                assert(after[pos + j] == new[j - 1]);
                let i = j - 1;
                assert(q.stmts[(a.next_stmt + i) as usize].kind == leaf_let(a, r, ls, i + 1));
            }
        }
        assert(ls[0] == ls[0]);
        assert(q.stmts[stmt.0] == first[stmt.0]);
    }
}

/// Each rewrite says what its statement says: where it stands, how mutable its variables are, which
/// local variable it reads, of which type, and the elements of its pattern.
pub proof fn lemma_what_a_rewrite_holds(store: Map<usize, PackageV>, package: PackageId, i: int)
    requires
        reach_ok(store, package, Seq::empty()),
        0 <= i < package_rewrites(store, package).len(),
    ensures
        ({
            let p = store[package.0];
            let r = package_rewrites(store, package)[i];
            &&& p.blocks[r.block.0].stmts.contains(r.stmt)
            &&& p.stmts[r.stmt.0].kind matches StmtKind::Local(mutability, pat, rhs)
                && p.pats[pat.0].kind matches PatKind::Tuple(elems)
                && p.exprs[rhs.0].kind matches ExprKindV::Var(Res::Local(source), _)
                && r.mutability == mutability && r.source == source && r.elems == elems@ && r.ty
                == p.exprs[rhs.0].ty
        }),
{
    lemma_package_rewrites(store, package);
    assert(is_called_for(store[package.0], package_rewrites(store, package)[i]));
}

/// Whether statement `s` of the package `q` binds what statement `t` of the package `p` binds at
/// the end of the path: the same variable, as mutable, to a projection along that path, of the
/// type of that variable, out of a read of the same local variable, of the same type.
pub open spec fn binds_same(
    p: PackageV,
    t: StmtId,
    path: Seq<usize>,
    to: PatId,
    q: PackageV,
    s: StmtId,
) -> bool {
    match (p.stmts[t.0].kind, q.stmts[s.0].kind) {
        (StmtKind::Local(mutability, pat, rhs), StmtKind::Local(now, bound, field)) => {
            &&& leads_to(p.pats, pat, path, to)
            &&& q.stmts.contains_key(s.0)
            &&& bound == to
            &&& now == mutability
            &&& q.exprs.contains_key(field.0)
            &&& q.exprs[field.0].ty == p.pats[to.0].ty@
            &&& match q.exprs[field.0].kind {
                ExprKindV::Field(base, along) => {
                    &&& along == path
                    &&& q.exprs.contains_key(base.0)
                    &&& q.exprs[base.0].ty == p.exprs[rhs.0].ty
                    &&& match (p.exprs[rhs.0].kind, q.exprs[base.0].kind) {
                        (
                            ExprKindV::Var(Res::Local(source), _),
                            ExprKindV::Var(Res::Local(read), _),
                        ) => read == source,
                        _ => false,
                    }
                },
                _ => false,
            }
        },
        _ => false,
    }
}

/// A rewrite that was called for in `p`, applied to what earlier rewrites have made of it.
proof fn lemma_step_binds(p: PackageV, q: PackageV, c: Assigner, r: RewriteV)
    requires
        is_called_for(p, r),
        q.pats == p.pats,
        is_fresh(c, q),
        applicable(q, r),
        has_room(c, rewrite_leaves(q, r).len()),
    ensures
        ({
            let z = rewritten(q, c, r);
            let ls = rewrite_leaves(p, r);
            &&& ls == rewrite_leaves(q, r)
            &&& ls.len() > 0 ==> binds_same(p, r.stmt, ls[0].path, ls[0].pat, z, r.stmt)
            &&& forall|j: int|
                0 < j < ls.len() ==> binds_same(
                    p,
                    r.stmt,
                    (#[trigger] ls[j]).path,
                    ls[j].pat,
                    z,
                    StmtId((c.next_stmt + j - 1) as usize),
                )
            &&& forall|s: StmtId, t: StmtId, path: Seq<usize>, to: PatId|
                binds_same(p, t, path, to, q, s) && (s != r.stmt || ls.len() == 0)
                    ==> #[trigger] binds_same(p, t, path, to, z, s)
            &&& forall|k: usize| #[trigger]
                z.stmts.contains_key(k) && !q.stmts.contains_key(k) ==> c.next_stmt <= k
                    < c.next_stmt + ls.len() - 1
        }),
{
    let z = rewritten(q, c, r);
    let ls = rewrite_leaves(p, r);
    lemma_stmt_whole(p, r.block, r.stmt);
    let pat = p.stmts[r.stmt.0].kind->Local_1;
    let elems = p.pats[pat.0].kind->Tuple_0;
    lemma_variables_of_a_pattern(p, pat, elems, r);
    lemma_step(q, c, r);
    if ls.len() > 0 {
        let first = q.stmts.insert(
            r.stmt.0,
            Stmt { kind: leaf_let(c, r, ls, 0), ..q.stmts[r.stmt.0] },
        );
        lemma_projections(q.exprs, c.next_expr as nat, r, ls);
        lemma_lets(first, c, r, ls, ls.len());
        assert forall|j: int| 0 <= j < ls.len() implies leads_to(
            p.pats,
            pat,
            (#[trigger] ls[j]).path,
            ls[j].pat,
        ) && binds_same(
            p,
            r.stmt,
            ls[j].path,
            ls[j].pat,
            z,
            if j == 0 {
                r.stmt
            } else {
                StmtId((c.next_stmt + j - 1) as usize)
            },
        ) by {
            let field = projection_id(c.next_expr as nat, j);
            let base = ExprId((c.next_expr + 2 * j) as usize);
            assert(z.exprs.contains_key(field.0));
            assert(z.exprs.contains_key(base.0));
            if j == 0 {
                assert(z.stmts[r.stmt.0] == first[r.stmt.0]);
            } else {
                let i = j - 1;
                assert(z.stmts[(c.next_stmt + i) as usize].kind == leaf_let(c, r, ls, i + 1));
                assert(z.stmts.contains_key((c.next_stmt + i) as usize));
            }
        }
        assert(ls[0] == ls[0]);
    }
    assert forall|s: StmtId, t: StmtId, path: Seq<usize>, to: PatId|
        binds_same(p, t, path, to, q, s) && (s != r.stmt || ls.len()
            == 0) implies #[trigger] binds_same(p, t, path, to, z, s) by {
        assert(q.stmts.contains_key(s.0));
        assert(z.stmts[s.0] == q.stmts[s.0]);
    }
}

/// Whether a statement of `q` is one of `p`, or binds what some statement of `p` binds somewhere.
spec fn is_accounted_for(p: PackageV, q: PackageV, s: StmtId) -> bool {
    ||| p.stmts.contains_key(s.0) && q.stmts[s.0] == p.stmts[s.0]
    ||| exists|t: StmtId, path: Seq<usize>, to: PatId|
        (p.stmts.contains_key(s.0) ==> t == s) && #[trigger] binds_same(p, t, path, to, q, s)
}

proof fn lemma_accounted_for(
    store: Map<usize, PackageV>,
    k: usize,
    a: Assigner,
    rs: Seq<RewriteV>,
    s: StmtId,
)
    requires
        store.contains_key(k),
        is_fresh(a, store[k]),
        all_called_for(store[k], rs),
        has_room(a, leaf_count(store[k], rs)),
        normalized(store[k], a, rs).0.stmts.contains_key(s.0),
    ensures
        is_accounted_for(store[k], normalized(store[k], a, rs).0, s),
    decreases rs.len(),
{
    let p = store[k];
    if rs.len() > 0 {
        let rest = rs.drop_last();
        let r = rs.last();
        assert forall|i: int| 0 <= i < rest.len() implies is_called_for(p, #[trigger] rest[i])
            && applicable(p, rest[i]) by {
            assert(is_called_for(p, rs[i]));
            lemma_applicable(p, rs[i]);
        }
        assert(is_called_for(p, rs[rs.len() - 1]));
        lemma_applicable(p, r);
        lemma_normalized(store, k, a, rest);
        lemma_normalized_frame(p, a, rest);
        let (q, c) = normalized(p, a, rest);
        let z = rewritten(q, c, r);
        let ls = rewrite_leaves(p, r);
        lemma_step_binds(p, q, c, r);
        lemma_step(q, c, r);
        if q.stmts.contains_key(s.0) {
            lemma_accounted_for(store, k, a, rest, s);
            if s == r.stmt && ls.len() > 0 {
                assert(binds_same(p, s, ls[0].path, ls[0].pat, z, s));
            } else {
                assert(z.stmts[s.0] == q.stmts[s.0]);
                if !(p.stmts.contains_key(s.0) && q.stmts[s.0] == p.stmts[s.0]) {
                    let (t, path, to) = choose|t: StmtId, path: Seq<usize>, to: PatId|
                        (p.stmts.contains_key(s.0) ==> t == s) && #[trigger] binds_same(
                            p,
                            t,
                            path,
                            to,
                            q,
                            s,
                        );
                    assert(binds_same(p, t, path, to, z, s));
                }
            }
        } else {
            let j = s.0 - c.next_stmt + 1;
            assert(StmtId((c.next_stmt + j - 1) as usize) == s);
            assert(ls[j] == ls[j]);
            assert(!p.stmts.contains_key(s.0)) by {
                if p.stmts.contains_key(s.0) {
                    assert(q.stmts.contains_key(s.0));
                }
            }
            assert(binds_same(p, r.stmt, ls[j].path, ls[j].pat, z, s));
        }
    }
}

/// Whatever normalization has changed or added binds what some statement bound before: the same
/// variable, as mutable, to the projection out of the same local variable that stands where the
/// variable stood in the pattern, with the types that these had. A statement that was there
/// already is as it was, or binds one of its own variables.
pub proof fn lemma_statements_bind_what_was_bound(
    store: Map<usize, PackageV>,
    package: PackageId,
    a: Assigner,
    s: StmtId,
)
    requires
        reach_ok(store, package, Seq::empty()),
        is_fresh(a, store[package.0]),
        has_room(a, leaf_count(store[package.0], package_rewrites(store, package))),
        normalized(store[package.0], a, package_rewrites(store, package)).0.stmts.contains_key(s.0),
    ensures
        ({
            let p = store[package.0];
            let q = normalized(p, a, package_rewrites(store, package)).0;
            ||| p.stmts.contains_key(s.0) && q.stmts[s.0] == p.stmts[s.0]
            ||| exists|t: StmtId, path: Seq<usize>, to: PatId|
                (p.stmts.contains_key(s.0) ==> t == s) && #[trigger] binds_same(
                    p,
                    t,
                    path,
                    to,
                    q,
                    s,
                )
        }),
{
    lemma_package_rewrites(store, package);
    lemma_accounted_for(store, package.0, a, package_rewrites(store, package), s);
}

/// Whether a statement of the block binds what statement `t` of `p` binds as its variable `j`.
spec fn is_bound(p: PackageV, q: PackageV, b: BlockId, t: StmtId, leaf: LeafV, j: int) -> bool {
    exists|s: StmtId|
        {
            &&& q.blocks[b.0].stmts.contains(s)
            &&& #[trigger] binds_same(p, t, leaf.path, leaf.pat, q, s)
            &&& j == 0 ==> s == t
            &&& j > 0 ==> !p.stmts.contains_key(s.0)
        }
}

proof fn lemma_bound(
    store: Map<usize, PackageV>,
    k: usize,
    a: Assigner,
    rs: Seq<RewriteV>,
    at: int,
    j: int,
)
    requires
        store.contains_key(k),
        is_fresh(a, store[k]),
        all_called_for(store[k], rs),
        has_room(a, leaf_count(store[k], rs)),
        0 <= at < rs.len(),
        0 <= j < rewrite_leaves(store[k], rs[at]).len(),
    ensures
        is_bound(
            store[k],
            normalized(store[k], a, rs).0,
            rs[at].block,
            rs[at].stmt,
            rewrite_leaves(store[k], rs[at])[j],
            j,
        ),
    decreases rs.len(),
{
    let p = store[k];
    let rest = rs.drop_last();
    let r = rs.last();
    let (b, t) = (rs[at].block, rs[at].stmt);
    let leaf = rewrite_leaves(p, rs[at])[j];
    assert forall|i: int| 0 <= i < rest.len() implies is_called_for(p, #[trigger] rest[i])
        && applicable(p, rest[i]) by {
        assert(is_called_for(p, rs[i]));
        lemma_applicable(p, rs[i]);
    }
    assert(is_called_for(p, rs[rs.len() - 1]));
    assert(is_called_for(p, rs[at]));
    lemma_applicable(p, r);
    lemma_stmt_whole(p, b, t);
    lemma_normalized(store, k, a, rest);
    lemma_normalized_frame(p, a, rest);
    let (q, c) = normalized(p, a, rest);
    let z = rewritten(q, c, r);
    let ls = rewrite_leaves(p, r);
    lemma_step_binds(p, q, c, r);
    lemma_step(q, c, r);
    lemma_step_stmts(q, c, r);
    lemma_still_there(store, k, a, rest, rs[at]);
    assert(q.blocks[b.0].stmts.contains(t));
    assert(z.blocks[b.0].stmts.contains(t)) by {
        if r.block == b && r.stmt == t {
            assert(r.elems == rs[at].elems);
        }
    }
    if at == rs.len() - 1 {
        if j == 0 {
            assert(binds_same(p, t, leaf.path, leaf.pat, z, t));
        } else {
            let s = StmtId((c.next_stmt + j - 1) as usize);
            assert(ls[j] == leaf);
            assert(binds_same(p, t, leaf.path, leaf.pat, z, s));
            let before = q.blocks[b.0].stmts;
            before.index_of_first_ensures(t);
            let pos = before.index_of_first(t)->0;
            let new = new_stmt_ids(c, (ls.len() - 1) as nat);
            let after = before.take(pos + 1) + new + before.skip(pos + 1);
            assert(z.blocks[b.0].stmts == after);
            assert(after[pos + 1 + (j - 1)] == new[j - 1]);
            assert(new[j - 1] == s);
            assert(after.contains(s));
            assert(!p.stmts.contains_key(s.0)) by {
                if p.stmts.contains_key(s.0) {
                    assert(q.stmts.contains_key(s.0));
                }
            }
        }
    } else {
        lemma_bound(store, k, a, rest, at, j);
        let s = choose|s: StmtId|
            {
                &&& q.blocks[b.0].stmts.contains(s)
                &&& #[trigger] binds_same(p, t, leaf.path, leaf.pat, q, s)
                &&& j == 0 ==> s == t
                &&& j > 0 ==> !p.stmts.contains_key(s.0)
            };
        if s == r.stmt && ls.len() > 0 {
            assert(p.stmts.contains_key(s.0));
            assert(j == 0 && s == t);
            assert(r.elems == rs[at].elems);
            assert(ls[0] == leaf);
            assert(binds_same(p, t, leaf.path, leaf.pat, z, t));
        } else {
            assert(binds_same(p, t, leaf.path, leaf.pat, z, s));
            assert(z.blocks[b.0].stmts.contains(s)) by {
                if r.block == b && r.stmt == s {
                    assert(p.stmts.contains_key(s.0));
                    assert(s == t);
                }
            }
        }
    }
}

/// Rewrites keep a statement in its block whose pattern binds a variable.
proof fn lemma_still_there(
    store: Map<usize, PackageV>,
    k: usize,
    a: Assigner,
    rs: Seq<RewriteV>,
    r: RewriteV,
)
    requires
        store.contains_key(k),
        is_fresh(a, store[k]),
        all_called_for(store[k], rs),
        has_room(a, leaf_count(store[k], rs)),
        is_called_for(store[k], r),
        rewrite_leaves(store[k], r).len() > 0,
    ensures
        normalized(store[k], a, rs).0.blocks[r.block.0].stmts.contains(r.stmt),
    decreases rs.len(),
{
    let p = store[k];
    if rs.len() > 0 {
        let rest = rs.drop_last();
        let last = rs.last();
        assert forall|i: int| 0 <= i < rest.len() implies is_called_for(p, #[trigger] rest[i])
            && applicable(p, rest[i]) by {
            assert(is_called_for(p, rs[i]));
            lemma_applicable(p, rs[i]);
        }
        assert(is_called_for(p, rs[rs.len() - 1]));
        lemma_applicable(p, last);
        lemma_normalized(store, k, a, rest);
        lemma_normalized_frame(p, a, rest);
        lemma_still_there(store, k, a, rest, r);
        let (q, c) = normalized(p, a, rest);
        lemma_step_binds(p, q, c, last);
        lemma_step(q, c, last);
        lemma_step_stmts(q, c, last);
        if last.stmt == r.stmt {
            assert(last.elems == r.elems);
        }
    }
}

/// Every variable that a rewritten statement binds, at whatever depth of its pattern, is bound by
/// a statement of the same block afterwards: as mutable, to the projection along its path out of
/// the same local variable.
pub proof fn lemma_each_variable_is_bound(
    store: Map<usize, PackageV>,
    package: PackageId,
    a: Assigner,
    item: usize,
    b: BlockId,
    t: StmtId,
    path: Seq<usize>,
    to: PatId,
)
    requires
        reach_ok(store, package, Seq::empty()),
        is_fresh(a, store[package.0]),
        has_room(a, leaf_count(store[package.0], package_rewrites(store, package))),
        store[package.0].items.contains_key(item),
        reachable_set(store, package, Seq::empty()).contains(
            StoreItemId { package, item: LocalItemId(item) },
        ),
        store[package.0].items[item].kind matches ItemKind::Callable(decl)
            && store[package.0].callable_walk(decl.implementation).contains(Node::Block(b)),
        store[package.0].blocks[b.0].stmts.contains(t),
        store[package.0].stmts[t.0].kind matches StmtKind::Local(_, pat, rhs)
            && store[package.0].pats[pat.0].kind matches PatKind::Tuple(elems)
            && store[package.0].exprs[rhs.0].kind matches ExprKindV::Var(Res::Local(_), _)
            && store[package.0].exprs[rhs.0].ty matches TyV::Tuple(tys)
            && elems@.len() == tys.len() && leads_to(store[package.0].pats, pat, path, to),
        store[package.0].pats[to.0].kind is Bind,
    ensures
        ({
            let p = store[package.0];
            let q = normalized(p, a, package_rewrites(store, package)).0;
            exists|s: StmtId|
                q.blocks[b.0].stmts.contains(s) && #[trigger] binds_same(p, t, path, to, q, s)
        }),
{
    let p = store[package.0];
    let rs = package_rewrites(store, package);
    let reachable = reachable_set(store, package, Seq::empty());
    let items = keys_in_order(p.items.dom());
    lemma_package_rewrites(store, package);
    lemma_keys_below(p.items.dom(), usize::MAX as nat + 1);
    assert(items.contains(item));
    assert(is_walked(p, package, reachable, item, b));
    lemma_items_entries(p, package, reachable, items, item, b, t);
    lemma_occurs(p.blocks[b.0].stmts, t);
    lemma_entry(rs, b, t);
    let at = choose|at: int|
        0 <= at < rs.len() && (#[trigger] rs[at]).block == b && rs[at].stmt == t;
    assert(is_called_for(p, rs[at]));
    lemma_stmt_whole(p, b, t);
    let pat = p.stmts[t.0].kind->Local_1;
    let elems = p.pats[pat.0].kind->Tuple_0;
    lemma_variables_of_a_pattern(p, pat, elems, rs[at]);
    let ls = rewrite_leaves(p, rs[at]);
    let leaf = LeafV { pat: to, path, ty: p.pats[to.0].ty@ };
    let j = ls.index_of(leaf);
    assert(ls[j] == leaf);
    lemma_bound(store, package.0, a, rs, at, j);
}

proof fn lemma_entry(rs: Seq<RewriteV>, b: BlockId, s: StmtId)
    requires
        entries(rs, b, s) > 0,
    ensures
        exists|at: int| 0 <= at < rs.len() && (#[trigger] rs[at]).block == b && rs[at].stmt == s,
    decreases rs.len(),
{
    if rs.len() > 0 {
        if rs.last().block == b && rs.last().stmt == s {
            assert(rs[rs.len() - 1].block == b);
        } else {
            lemma_entry(rs.drop_last(), b, s);
            let at = choose|at: int|
                0 <= at < rs.len() - 1 && (#[trigger] rs.drop_last()[at]).block == b
                    && rs.drop_last()[at].stmt == s;
            assert(rs[at].block == b);
        }
    }
}

/// Normalization hands out identifiers without a gap: every one between where the assigner stood
/// and where it stands afterwards is that of a new expression or statement.
pub proof fn lemma_no_identifier_is_skipped(
    store: Map<usize, PackageV>,
    package: PackageId,
    a: Assigner,
    k: usize,
)
    requires
        reach_ok(store, package, Seq::empty()),
        is_fresh(a, store[package.0]),
        has_room(a, leaf_count(store[package.0], package_rewrites(store, package))),
    ensures
        ({
            let (q, b) = normalized(store[package.0], a, package_rewrites(store, package));
            &&& a.next_expr <= k < b.next_expr <==> q.exprs.contains_key(k)
                && !store[package.0].exprs.contains_key(k)
            &&& a.next_stmt <= k < b.next_stmt <==> q.stmts.contains_key(k)
                && !store[package.0].stmts.contains_key(k)
            &&& a.next_expr <= b.next_expr && a.next_stmt <= b.next_stmt
        }),
{
    let rs = package_rewrites(store, package);
    lemma_package_rewrites(store, package);
    lemma_handed_out(store, package.0, a, rs, k);
    assert forall|i: int| 0 <= i < rs.len() implies applicable(
        store[package.0],
        #[trigger] rs[i],
    ) by {
        assert(is_called_for(store[package.0], rs[i]));
        lemma_applicable(store[package.0], rs[i]);
    }
    lemma_normalized(store, package.0, a, rs);
    lemma_normalized_frame(store[package.0], a, rs);
}

proof fn lemma_handed_out(
    store: Map<usize, PackageV>,
    k: usize,
    a: Assigner,
    rs: Seq<RewriteV>,
    n: usize,
)
    requires
        store.contains_key(k),
        is_fresh(a, store[k]),
        all_called_for(store[k], rs),
        has_room(a, leaf_count(store[k], rs)),
    ensures
        ({
            let (q, b) = normalized(store[k], a, rs);
            &&& a.next_expr <= n < b.next_expr ==> q.exprs.contains_key(n)
            &&& a.next_stmt <= n < b.next_stmt ==> q.stmts.contains_key(n)
        }),
    decreases rs.len(),
{
    let p = store[k];
    if rs.len() > 0 {
        let rest = rs.drop_last();
        let r = rs.last();
        assert forall|i: int| 0 <= i < rest.len() implies is_called_for(p, #[trigger] rest[i])
            && applicable(p, rest[i]) by {
            assert(is_called_for(p, rs[i]));
            lemma_applicable(p, rs[i]);
        }
        assert(is_called_for(p, rs[rs.len() - 1]));
        lemma_applicable(p, r);
        lemma_handed_out(store, k, a, rest, n);
        lemma_normalized(store, k, a, rest);
        lemma_normalized_frame(p, a, rest);
        let (q, c) = normalized(p, a, rest);
        let ls = rewrite_leaves(q, r);
        lemma_step(q, c, r);
        if ls.len() > 0 {
            let first = q.stmts.insert(
                r.stmt.0,
                Stmt { kind: leaf_let(c, r, ls, 0), ..q.stmts[r.stmt.0] },
            );
            lemma_projections(q.exprs, c.next_expr as nat, r, ls);
            lemma_lets(first, c, r, ls, ls.len());
        }
    }
}

/// There is room exactly if the identifiers that are handed out stay below the largest number: two
/// expressions for each variable, and at most one statement.
pub proof fn lemma_room(a: Assigner, n: nat)
    ensures
        has_room(a, n) <==> a.next_expr + 2 * n < usize::MAX && a.next_stmt + n < usize::MAX,
{
}

} // verus!
