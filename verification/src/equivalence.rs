//! Normalizing tuple destructuring does not change what a program computes.

use vstd::prelude::*;

use crate::assigner::{is_fresh, Assigner};
use crate::fir::{
    BlockId, ExprId, ExprKind, ExprKindV, PackageId, PackageV, Pat, PatId, PatKind, Res, Stmt,
    StmtId, StmtKind,
};
use crate::idempotence::{lemma_occurs, lemma_occurs_removed, lemma_occurs_spliced, occurrences};
use crate::preservation::{
    lemma_leaves_of_whole, lemma_lets, lemma_normalized, lemma_projections, lemma_step,
    lemma_step_stmts, lemma_still_applicable, lemma_usize_set_finite,
};
use crate::reachability::reach_ok;
use crate::semantics::{
    bind, bind_all, eval, is_compositional, look_up, project, read_local, refines, run_stmt,
    run_stmts, runner, unit_ty, unit_value, Meaning, Outcome, State, Value,
};
use crate::tuple_destructuring::{
    applicable, has_room, is_called_for, leaf_count, leaf_let, leaves, leaves_of, lemma_applicable,
    lemma_normalized_frame, lemma_package_rewrites, lemma_stmt_whole, new_stmt_ids, normalized,
    package_rewrites, projection_id, removed, rewrite_leaves, rewritten, stmt_rewrite, LeafV,
    RewriteV,
};
use crate::walk::Node;

verus! {

/// The variable that a leaf binds.
pub open spec fn bound_var(pats: Map<usize, Pat>, leaf: LeafV) -> usize {
    pats[leaf.pat.0].kind->Bind_0.id.0
}

/// The local variables after each leaf has been set to what a projection gets out of the value.
spec fn assign_leaves<A>(
    pats: Map<usize, Pat>,
    ls: Seq<LeafV>,
    v: Value<A>,
    locals: Map<usize, Value<A>>,
) -> Option<Map<usize, Value<A>>>
    decreases ls.len(),
{
    if ls.len() == 0 {
        Some(locals)
    } else {
        match (assign_leaves(pats, ls.drop_last(), v, locals), project(v, ls.last().path)) {
            (Some(before), Some(part)) => Some(before.insert(bound_var(pats, ls.last()), part)),
            _ => None,
        }
    }
}

proof fn lemma_assign_concat<A>(
    pats: Map<usize, Pat>,
    x: Seq<LeafV>,
    y: Seq<LeafV>,
    v: Value<A>,
    locals: Map<usize, Value<A>>,
)
    ensures
        assign_leaves(pats, x + y, v, locals) == (match assign_leaves(pats, x, v, locals) {
            Some(mid) => assign_leaves(pats, y, v, mid),
            None => None,
        }),
    decreases y.len(),
{
    if y.len() == 0 {
        assert(x + y =~= x);
    } else {
        assert((x + y).drop_last() =~= x + y.drop_last());
        lemma_assign_concat(pats, x, y.drop_last(), v, locals);
    }
}

proof fn lemma_project_push<A>(v: Value<A>, path: Seq<usize>, vs: Seq<Value<A>>, i: usize)
    requires
        project(v, path) == Some(Value::Tuple(vs)),
        i < vs.len(),
    ensures
        project(v, path.push(i)) == Some(vs[i as int]),
    decreases path.len(),
{
    let longer = path.push(i);
    if path.len() == 0 {
        assert(longer.skip(1) =~= seq![]);
        assert(project(vs[i as int], longer.skip(1)) == Some(vs[i as int]));
    } else {
        let inner = v->Tuple_0[path[0] as int];
        assert(longer.skip(1) =~= path.skip(1).push(i));
        lemma_project_push(inner, path.skip(1), vs, i);
    }
}

/// To bind a pattern is to set each of its leaves.
proof fn lemma_bind_leaves<A>(
    pats: Map<usize, Pat>,
    id: PatId,
    path: Seq<usize>,
    d1: nat,
    d2: nat,
    v: Value<A>,
    part: Value<A>,
    locals: Map<usize, Value<A>>,
)
    requires
        d1 <= d2,
        project(v, path) == Some(part),
        bind(pats, id, d1, part, locals) is Some,
    ensures
        assign_leaves(pats, leaves(pats, id, path, d2), v, locals) == bind(
            pats,
            id,
            d1,
            part,
            locals,
        ),
    decreases d1, 0nat,
{
    match pats[id.0].kind {
        PatKind::Bind(ident) => {
            let leaf = LeafV { pat: id, path, ty: pats[id.0].ty@ };
            assert(seq![leaf].drop_last() =~= seq![]);
            assert(assign_leaves(pats, seq![leaf].drop_last(), v, locals) == Some(locals));
        },
        PatKind::Discard => {},
        PatKind::Tuple(subs) => {
            assert(subs.len() == subs@.len());
            lemma_bind_all_leaves(
                pats,
                subs@,
                path,
                (d1 - 1) as nat,
                (d2 - 1) as nat,
                v,
                part->Tuple_0,
                locals,
            );
        },
    }
}

proof fn lemma_bind_all_leaves<A>(
    pats: Map<usize, Pat>,
    subs: Seq<PatId>,
    path: Seq<usize>,
    d1: nat,
    d2: nat,
    v: Value<A>,
    vs: Seq<Value<A>>,
    locals: Map<usize, Value<A>>,
)
    requires
        d1 <= d2,
        subs.len() <= vs.len(),
        subs.len() <= usize::MAX,
        project(v, path) == Some(Value::Tuple(vs)),
        bind_all(pats, subs, d1, vs, locals) is Some,
    ensures
        assign_leaves(pats, leaves_of(pats, subs, path, d2), v, locals) == bind_all(
            pats,
            subs,
            d1,
            vs,
            locals,
        ),
    decreases d1, subs.len(),
{
    if subs.len() > 0 {
        let i = (subs.len() - 1) as usize;
        let rest = subs.drop_last();
        let before = bind_all(pats, rest, d1, vs, locals)->0;
        lemma_bind_all_leaves(pats, rest, path, d1, d2, v, vs, locals);
        lemma_project_push(v, path, vs, i);
        lemma_bind_leaves(pats, subs.last(), path.push(i), d1, d2, v, vs[i as int], before);
        lemma_assign_concat(
            pats,
            leaves_of(pats, rest, path, d2),
            leaves(pats, subs.last(), path.push(i), d2),
            v,
            locals,
        );
    }
}

/// Statements run one after the other, wherever the sequence is cut.
proof fn lemma_run_concat<A, W>(
    store: Map<usize, PackageV>,
    meaning: Meaning<A, W>,
    fuel: nat,
    k: usize,
    x: Seq<StmtId>,
    y: Seq<StmtId>,
    st: State<A, W>,
)
    ensures
        run_stmts(store, meaning, fuel, k, x + y, st) == (match run_stmts(
            store,
            meaning,
            fuel,
            k,
            x,
            st,
        ) {
            Outcome::Next(mid, v) => if y.len() == 0 {
                Outcome::Next(mid, v)
            } else {
                run_stmts(store, meaning, fuel, k, y, mid)
            },
            other => other,
        }),
    decreases y.len(),
{
    if y.len() == 0 {
        assert(x + y =~= x);
    } else {
        assert((x + y).drop_last() =~= x + y.drop_last());
        lemma_run_concat(store, meaning, fuel, k, x, y.drop_last(), st);
    }
}

/// Whether a rewrite is safe: it comes from its statement, which stands nowhere but once in its
/// block, does not bind the variable that it takes apart, and is not the value of its block.
spec fn is_safe(p: PackageV, r: RewriteV) -> bool {
    &&& applicable(p, r)
    &&& stmt_rewrite(p, r.block, r.stmt) == Some(r)
    &&& p.exprs.contains_key(p.stmts[r.stmt.0].kind->Local_2.0)
    &&& stands_once(p, r.block, r.stmt)
    &&& !binds_source(p, r)
    &&& block_typed(p, r.block)
    &&& stmts_exist(p, r.block)
}

/// Whether every statement of a block exists.
spec fn stmts_exist(p: PackageV, block: BlockId) -> bool {
    forall|i: int|
        0 <= i < p.blocks[block.0].stmts.len() ==> p.stmts.contains_key(
            (#[trigger] p.blocks[block.0].stmts[i]).0,
        )
}

/// Whether a statement stands once in this block, and in no other.
pub open spec fn stands_once(p: PackageV, block: BlockId, stmt: StmtId) -> bool {
    forall|b: usize| #[trigger]
        p.blocks.contains_key(b) ==> occurrences(p.blocks[b].stmts, stmt) == if b == block.0 {
            1nat
        } else {
            0
        }
}

/// Whether the pattern of a rewrite binds the very variable that it takes apart.
pub open spec fn binds_source(p: PackageV, r: RewriteV) -> bool {
    exists|j: int|
        0 <= j < rewrite_leaves(p, r).len() && bound_var(
            p.pats,
            #[trigger] rewrite_leaves(p, r)[j],
        ) == r.source.0
}

/// Whether a block that does not end in an expression has the unit type.
pub open spec fn block_typed(p: PackageV, block: BlockId) -> bool {
    let stmts = p.blocks[block.0].stmts;
    stmts.len() > 0 && !(p.stmts[stmts.last().0].kind is Expr) ==> p.blocks[block.0].ty
        == unit_ty()
}

/// The statements that bind the leaves of a rewrite.
spec fn leaf_stmts(a: Assigner, r: RewriteV, n: nat) -> Seq<StmtId> {
    seq![r.stmt] + new_stmt_ids(a, (n - 1) as nat)
}

/// Running the statements that bind the leaves sets each leaf.
proof fn lemma_run_leaves<A, W>(
    store: Map<usize, PackageV>,
    k: usize,
    a: Assigner,
    r: RewriteV,
    meaning: Meaning<A, W>,
    fuel: nat,
    st: State<A, W>,
    n: nat,
)
    requires
        store.contains_key(k),
        is_fresh(a, store[k]),
        is_safe(store[k], r),
        has_room(a, rewrite_leaves(store[k], r).len()),
        fuel > 0,
        n <= rewrite_leaves(store[k], r).len(),
        st.locals.contains_key(r.source.0),
        assign_leaves(
            store[k].pats,
            rewrite_leaves(store[k], r).take(n as int),
            st.locals[r.source.0],
            st.locals,
        ) is Some,
    ensures
        ({
            let ls = rewrite_leaves(store[k], r);
            let locals = assign_leaves(
                store[k].pats,
                ls.take(n as int),
                st.locals[r.source.0],
                st.locals,
            )->0;
            &&& locals.contains_key(r.source.0)
            &&& locals[r.source.0] == st.locals[r.source.0]
            &&& run_stmts(
                store.insert(k, rewritten(store[k], a, r)),
                meaning,
                fuel,
                k,
                leaf_stmts(a, r, ls.len()).take(n as int),
                st,
            ) == Outcome::Next(State { locals, ..st }, unit_value::<A>())
        }),
    decreases n,
{
    let p = store[k];
    let q = rewritten(p, a, r);
    let after = store.insert(k, q);
    let ls = rewrite_leaves(p, r);
    let all = leaf_stmts(a, r, ls.len());
    let v = st.locals[r.source.0];
    if n > 0 {
        let j = n - 1;
        let leaf = ls[j];
        let s = all[j];
        let first = p.stmts.insert(
            r.stmt.0,
            Stmt { kind: leaf_let(a, r, ls, 0), ..p.stmts[r.stmt.0] },
        );
        assert(all.take(n as int).drop_last() =~= all.take(j));
        assert(ls.take(n as int).drop_last() =~= ls.take(j));
        assert(ls.take(n as int).last() == leaf);
        lemma_run_leaves(store, k, a, r, meaning, fuel, st, j as nat);
        lemma_step(p, a, r);
        lemma_projections(p.exprs, a.next_expr as nat, r, ls);
        lemma_lets(first, a, r, ls, ls.len());
        lemma_leaves_of_whole(p.pats, r.elems, seq![], p.pat_depth());
        let locals = assign_leaves(p.pats, ls.take(j), v, st.locals)->0;
        let mid = State { locals, ..st };
        let field = projection_id(a.next_expr as nat, j);
        let base = ExprId((a.next_expr + 2 * j) as usize);
        assert(q.stmts.contains_key(s.0) && q.stmts[s.0].kind == leaf_let(a, r, ls, j)) by {
            if j == 0 {
                assert(s == r.stmt);
            } else {
                assert(s == StmtId((a.next_stmt + (j - 1)) as usize));
                assert(q.stmts[(a.next_stmt + (j - 1)) as usize].kind == leaf_let(a, r, ls, j));
            }
        }
        assert(q.exprs.contains_key(field.0));
        assert(q.exprs.contains_key(base.0));
        assert(q.exprs[field.0].kind == ExprKindV::Field(base, leaf.path));
        assert(read_local(q, base) == Some(r.source.0));
        assert(eval(after, meaning, fuel, k, Node::Expr(field), mid) == look_up(
            mid,
            r.source.0,
            leaf.path,
        ));
        let part = project(v, leaf.path)->0;
        assert(q.pat_depth() > 0) by {
            lemma_usize_set_finite(q.pats.dom());
            assert(q.pats.contains_key(leaf.pat.0));
            if q.pats.dom().len() == 0 {
                assert(q.pats.dom() =~= Set::empty());
                assert(!q.pats.dom().contains(leaf.pat.0));
            }
        }
        assert(bind(q.pats, leaf.pat, q.pat_depth(), part, locals) == Some(
            locals.insert(bound_var(p.pats, leaf), part),
        ));
        assert(bound_var(p.pats, leaf) != r.source.0);
        assert(run_stmt(after, meaning, fuel, k, s, mid) == Outcome::Next(
            State { locals: locals.insert(bound_var(p.pats, leaf), part), ..st },
            unit_value::<A>(),
        ));
        assert(all.take(n as int).last() == s);
    } else {
        assert(ls.take(0) =~= seq![]);
        assert(all.take(0) =~= seq![]);
    }
}

/// What a statement that takes a local variable apart does: it sets each leaf.
proof fn lemma_destructure<A, W>(
    store: Map<usize, PackageV>,
    k: usize,
    r: RewriteV,
    meaning: Meaning<A, W>,
    fuel: nat,
    st: State<A, W>,
)
    requires
        store.contains_key(k),
        is_safe(store[k], r),
        !(run_stmt(store, meaning, fuel, k, r.stmt, st) is Stuck),
    ensures
        fuel > 0,
        st.locals.contains_key(r.source.0),
        ({
            let locals = assign_leaves(
                store[k].pats,
                rewrite_leaves(store[k], r),
                st.locals[r.source.0],
                st.locals,
            );
            &&& locals is Some
            &&& run_stmt(store, meaning, fuel, k, r.stmt, st) == Outcome::Next(
                State { locals: locals->0, ..st },
                unit_value::<A>(),
            )
        }),
{
    let p = store[k];
    let pat = p.stmts[r.stmt.0].kind->Local_1;
    let rhs = p.stmts[r.stmt.0].kind->Local_2;
    let v = st.locals[r.source.0];
    let depth = p.pat_depth();
    assert(p.exprs[rhs.0].kind matches ExprKindV::Var(Res::Local(local), _) && local == r.source);
    assert(eval(store, meaning, fuel, k, Node::Expr(rhs), st) == look_up(
        st,
        r.source.0,
        seq![],
    ));
    assert(project(v, seq![]) == Some(v));
    let subs = p.pats[pat.0].kind->Tuple_0;
    assert(subs.len() == subs@.len());
    assert(bind(p.pats, pat, depth, v, st.locals) is Some);
    lemma_bind_all_leaves(
        p.pats,
        subs@,
        seq![],
        (depth - 1) as nat,
        depth,
        v,
        v->Tuple_0,
        st.locals,
    );
}

/// Statements that are not rewritten run as before.
proof fn lemma_run_others<A, W>(
    store: Map<usize, PackageV>,
    k: usize,
    a: Assigner,
    r: RewriteV,
    meaning: Meaning<A, W>,
    fuel: nat,
    at: usize,
    stmts: Seq<StmtId>,
    st: State<A, W>,
)
    requires
        store.contains_key(k),
        is_fresh(a, store[k]),
        is_safe(store[k], r),
        has_room(a, rewrite_leaves(store[k], r).len()),
        is_compositional(meaning),
        at == k ==> !stmts.contains(r.stmt),
        !(run_stmts(store, meaning, fuel, at, stmts, st) is Stuck),
    ensures
        run_stmts(store.insert(k, rewritten(store[k], a, r)), meaning, fuel, at, stmts, st)
            == run_stmts(store, meaning, fuel, at, stmts, st),
    decreases fuel, stmts.len() + 1,
{
    let p = store[k];
    let q = rewritten(p, a, r);
    let after = store.insert(k, q);
    lemma_step(p, a, r);
    if stmts.len() > 0 {
        let rest = stmts.drop_last();
        let s = stmts.last();
        assert(stmts[stmts.len() - 1] == s);
        assert(at == k ==> !rest.contains(r.stmt)) by {
            if rest.contains(r.stmt) {
                assert(stmts[rest.index_of(r.stmt)] == r.stmt);
            }
        }
        lemma_run_others(store, k, a, r, meaning, fuel, at, rest, st);
        if let Outcome::Next(mid, _) = run_stmts(store, meaning, fuel, at, rest, st) {
            assert(!(run_stmt(store, meaning, fuel, at, s, mid) is Stuck));
            assert(store.contains_key(at) && store[at].stmts.contains_key(s.0));
            assert(after[at].stmts[s.0] == store[at].stmts[s.0]);
            assert(after[at].stmts.contains_key(s.0));
            assert(after[at].pats == store[at].pats);
            match store[at].stmts[s.0].kind {
                StmtKind::Expr(e) => {
                    lemma_step_eval(store, k, a, r, meaning, fuel, at, Node::Expr(e), mid);
                },
                StmtKind::Item(_) => {},
                StmtKind::Semi(e) => {
                    lemma_step_eval(store, k, a, r, meaning, fuel, at, Node::Expr(e), mid);
                },
                StmtKind::Local(_, _, e) => {
                    lemma_step_eval(store, k, a, r, meaning, fuel, at, Node::Expr(e), mid);
                },
            }
            assert(run_stmt(after, meaning, fuel, at, s, mid) == run_stmt(
                store,
                meaning,
                fuel,
                at,
                s,
                mid,
            ));
        }
    }
}

/// The rewritten block runs as before, but for the value of a block of the unit type.
proof fn lemma_run_rewritten<A, W>(
    store: Map<usize, PackageV>,
    k: usize,
    a: Assigner,
    r: RewriteV,
    meaning: Meaning<A, W>,
    fuel: nat,
    st: State<A, W>,
)
    requires
        store.contains_key(k),
        is_fresh(a, store[k]),
        is_safe(store[k], r),
        has_room(a, rewrite_leaves(store[k], r).len()),
        is_compositional(meaning),
        !(run_stmts(store, meaning, fuel, k, store[k].blocks[r.block.0].stmts, st) is Stuck),
    ensures
        ({
            let q = rewritten(store[k], a, r);
            let before = run_stmts(
                store,
                meaning,
                fuel,
                k,
                store[k].blocks[r.block.0].stmts,
                st,
            );
            let after = run_stmts(
                store.insert(k, q),
                meaning,
                fuel,
                k,
                q.blocks[r.block.0].stmts,
                st,
            );
            ||| after == before
            ||| {
                &&& store[k].blocks[r.block.0].ty == unit_ty()
                &&& before matches Outcome::Next(s1, _) && after matches Outcome::Next(s2, _)
                    && s1 == s2
            }
        }),
    decreases fuel, store[k].blocks[r.block.0].stmts.len() + 2,
{
    let p = store[k];
    let q = rewritten(p, a, r);
    let after = store.insert(k, q);
    let ls = rewrite_leaves(p, r);
    let stmts = p.blocks[r.block.0].stmts;
    lemma_step(p, a, r);
    lemma_occurs(stmts, r.stmt);
    assert(p.blocks.contains_key(r.block.0));
    stmts.index_of_first_ensures(r.stmt);
    let pos = stmts.index_of_first(r.stmt)->0;
    let x = stmts.take(pos);
    let one = seq![r.stmt];
    let y = stmts.skip(pos + 1);
    assert(stmts =~= x + one + y);
    assert(!x.contains(r.stmt)) by {
        if x.contains(r.stmt) {
            assert(stmts[x.index_of(r.stmt)] == r.stmt);
        }
    }
    assert(!y.contains(r.stmt)) by {
        lemma_occurs_removed(stmts, r.stmt, r.stmt);
        assert(removed(stmts, r.stmt) =~= x + y);
        lemma_occurs(x + y, r.stmt);
        if y.contains(r.stmt) {
            assert((x + y)[x.len() + y.index_of(r.stmt)] == r.stmt);
        }
    }
    lemma_run_concat(store, meaning, fuel, k, x + one, y, st);
    lemma_run_concat(store, meaning, fuel, k, x, one, st);
    lemma_run_others(store, k, a, r, meaning, fuel, k, x, st);
    if let Outcome::Next(mid, w) = run_stmts(store, meaning, fuel, k, x, st) {
        assert(one.drop_last() =~= seq![]);
        assert(run_stmts(store, meaning, fuel, k, one.drop_last(), mid) == Outcome::Next(
            mid,
            unit_value::<A>(),
        ));
        assert(run_stmts(store, meaning, fuel, k, one, mid) == run_stmt(
            store,
            meaning,
            fuel,
            k,
            r.stmt,
            mid,
        ));
        lemma_destructure(store, k, r, meaning, fuel, mid);
        let locals = assign_leaves(p.pats, ls, mid.locals[r.source.0], mid.locals)->0;
        let bound = State { locals, ..mid };
        if y.len() > 0 {
            lemma_run_others(store, k, a, r, meaning, fuel, k, y, bound);
        }
        if ls.len() > 0 {
            let new = leaf_stmts(a, r, ls.len());
            assert(new.take(ls.len() as int) =~= new);
            assert(ls.take(ls.len() as int) =~= ls);
            lemma_run_leaves(store, k, a, r, meaning, fuel, mid, ls.len());
            assert(q.blocks[r.block.0].stmts =~= x + new + y);
            lemma_run_concat(after, meaning, fuel, k, x + new, y, st);
            lemma_run_concat(after, meaning, fuel, k, x, new, st);
        } else {
            assert(q.blocks[r.block.0].stmts =~= x + y);
            lemma_run_concat(after, meaning, fuel, k, x, y, st);
            if y.len() == 0 {
                assert(stmts.last() == r.stmt);
            }
        }
    } else {
        if ls.len() > 0 {
            let new = leaf_stmts(a, r, ls.len());
            assert(q.blocks[r.block.0].stmts =~= x + new + y);
            lemma_run_concat(after, meaning, fuel, k, x + new, y, st);
            lemma_run_concat(after, meaning, fuel, k, x, new, st);
        } else {
            assert(q.blocks[r.block.0].stmts =~= x + y);
            lemma_run_concat(after, meaning, fuel, k, x, y, st);
        }
    }
}

/// A safe rewrite does not change what a node computes.
proof fn lemma_step_eval<A, W>(
    store: Map<usize, PackageV>,
    k: usize,
    a: Assigner,
    r: RewriteV,
    meaning: Meaning<A, W>,
    fuel: nat,
    at: usize,
    node: Node,
    st: State<A, W>,
)
    requires
        store.contains_key(k),
        is_fresh(a, store[k]),
        is_safe(store[k], r),
        has_room(a, rewrite_leaves(store[k], r).len()),
        is_compositional(meaning),
        !(eval(store, meaning, fuel, at, node, st) is Stuck),
    ensures
        eval(store.insert(k, rewritten(store[k], a, r)), meaning, fuel, at, node, st) == eval(
            store,
            meaning,
            fuel,
            at,
            node,
            st,
        ),
    decreases fuel, 0nat,
{
    let p = store[k];
    let q = rewritten(p, a, r);
    let after = store.insert(k, q);
    let less = (fuel - 1) as nat;
    lemma_step(p, a, r);
    assert(after[at].has(node));
    match node {
        Node::Stmt(_) => {},
        Node::Block(b) => {
            let stmts = store[at].blocks[b.0].stmts;
            if at == k && b == r.block {
                lemma_run_rewritten(store, k, a, r, meaning, less, st);
            } else {
                assert(at == k ==> !stmts.contains(r.stmt)) by {
                    if at == k {
                        assert(p.blocks.contains_key(b.0));
                        lemma_occurs(stmts, r.stmt);
                    }
                }
                lemma_run_others(store, k, a, r, meaning, less, at, stmts, st);
            }
        },
        Node::Expr(e) => {
            let expr = store[at].exprs[e.0];
            assert(after[at].exprs[e.0] == expr);
            match expr.kind {
                ExprKindV::Var(Res::Local(_), _) => {},
                ExprKindV::Field(base, _) => {
                    if store[at].exprs.contains_key(base.0) {
                        assert(read_local(after[at], base) == read_local(store[at], base));
                    }
                    if read_local(store[at], base) is None {
                        lemma_step_eval(
                            store,
                            k,
                            a,
                            r,
                            meaning,
                            less,
                            at,
                            Node::Expr(base),
                            st,
                        );
                    }
                },
                ExprKindV::Other(ExprKind::Block(b)) => {
                    lemma_step_eval(store, k, a, r, meaning, less, at, Node::Block(b), st);
                },
                _ => {
                    let first = runner(store, meaning, less);
                    let second = runner(after, meaning, less);
                    assert(refines(first, second)) by {
                        assert forall|k2: usize, n2: Node, st2: State<A, W>|
                            !((#[trigger] first(k2, n2, st2)) is Stuck) implies second(
                            k2,
                            n2,
                            st2,
                        ) == first(k2, n2, st2) by {
                            lemma_step_eval(store, k, a, r, meaning, less, k2, n2, st2);
                        }
                    }
                    assert(meaning(at, expr, second, st) == meaning(at, expr, first, st));
                },
            }
        },
    }
}

/// A safe rewrite stays safe after a rewrite of another statement.
proof fn lemma_still_safe(p: PackageV, a: Assigner, r: RewriteV, other: RewriteV)
    requires
        is_fresh(a, p),
        is_safe(p, r),
        has_room(a, rewrite_leaves(p, r).len()),
        is_safe(p, other),
        other.stmt != r.stmt,
    ensures
        is_safe(rewritten(p, a, r), other),
{
    let q = rewritten(p, a, r);
    let ls = rewrite_leaves(p, r);
    let before = p.blocks[r.block.0].stmts;
    let after = q.blocks[r.block.0].stmts;
    lemma_step(p, a, r);
    lemma_still_applicable(p, a, r, other);
    assert(q.stmts[other.stmt.0] == p.stmts[other.stmt.0]);
    assert(stmt_rewrite(q, other.block, other.stmt) == Some(other));
    assert(stands_once(q, other.block, other.stmt)) by {
        assert forall|b: usize| #[trigger] q.blocks.contains_key(b) implies occurrences(
            q.blocks[b].stmts,
            other.stmt,
        ) == if b == other.block.0 {
            1nat
        } else {
            0
        } by {
            assert(p.blocks.contains_key(b));
            if b == r.block.0 {
                if ls.len() == 0 {
                    lemma_occurs_removed(before, r.stmt, other.stmt);
                } else {
                    let new = new_stmt_ids(a, (ls.len() - 1) as nat);
                    assert(!new.contains(other.stmt)) by {
                        if new.contains(other.stmt) {
                            let j = new.index_of(other.stmt);
                            assert(new[j].0 == a.next_stmt + j);
                        }
                    }
                    lemma_occurs_spliced(before, r.stmt, new, other.stmt);
                }
            }
        }
    }
    assert(rewrite_leaves(q, other) == rewrite_leaves(p, other));
    assert(!binds_source(q, other));
    assert(stmts_exist(q, other.block)) by {
        lemma_step_stmts(p, a, r);
        assert forall|i: int|
            0 <= i < q.blocks[other.block.0].stmts.len() implies q.stmts.contains_key(
            (#[trigger] q.blocks[other.block.0].stmts[i]).0,
        ) by {
            let s = q.blocks[other.block.0].stmts[i];
            if p.blocks[other.block.0].stmts.contains(s) {
                let j = p.blocks[other.block.0].stmts.index_of(s);
                assert(p.stmts.contains_key(p.blocks[other.block.0].stmts[j].0));
            } else {
                assert(other.block == r.block);
                assert(after[i] == s);
            }
        }
    }
    assert(block_typed(q, other.block)) by {
        if other.block == r.block {
            lemma_occurs(before, r.stmt);
            assert(p.blocks.contains_key(r.block.0));
            before.index_of_first_ensures(r.stmt);
            let pos = before.index_of_first(r.stmt)->0;
            if pos == before.len() - 1 {
                assert(before.last() == r.stmt);
                assert(q.blocks[r.block.0].ty == unit_ty());
            } else {
                let y = before.skip(pos + 1);
                assert(after.last() == before.last()) by {
                    assert(y.last() == before.last());
                    if ls.len() > 0 {
                        let new = new_stmt_ids(a, (ls.len() - 1) as nat);
                        assert(after =~= before.take(pos + 1) + new + y);
                    } else {
                        assert(after =~= before.take(pos) + y);
                    }
                }
                lemma_same_kind(p, a, r, before);
            }
        } else {
            assert(q.blocks[other.block.0] == p.blocks[other.block.0]);
            if p.blocks[other.block.0].stmts.len() > 0 {
                lemma_same_kind(p, a, r, p.blocks[other.block.0].stmts);
            }
        }
    }
}

/// A rewrite does not change whether the last statement of a sequence is an expression.
proof fn lemma_same_kind(p: PackageV, a: Assigner, r: RewriteV, stmts: Seq<StmtId>)
    requires
        is_fresh(a, p),
        is_safe(p, r),
        has_room(a, rewrite_leaves(p, r).len()),
        stmts.len() > 0,
        p.stmts.contains_key(stmts[stmts.len() - 1].0),
    ensures
        rewritten(p, a, r).stmts[stmts.last().0].kind is Expr
            == p.stmts[stmts.last().0].kind is Expr,
{
    lemma_step(p, a, r);
}

/// Safe rewrites of different statements do not change what a node computes.
proof fn lemma_normalized_eval<A, W>(
    store: Map<usize, PackageV>,
    k: usize,
    a: Assigner,
    rs: Seq<RewriteV>,
    meaning: Meaning<A, W>,
    fuel: nat,
    at: usize,
    node: Node,
    st: State<A, W>,
)
    requires
        store.contains_key(k),
        is_fresh(a, store[k]),
        has_room(a, leaf_count(store[k], rs)),
        forall|i: int| 0 <= i < rs.len() ==> is_safe(store[k], #[trigger] rs[i]),
        forall|i: int, j: int|
            0 <= i < j < rs.len() ==> (#[trigger] rs[i]).stmt != (#[trigger] rs[j]).stmt,
        is_compositional(meaning),
        !(eval(store, meaning, fuel, at, node, st) is Stuck),
    ensures
        eval(store.insert(k, normalized(store[k], a, rs).0), meaning, fuel, at, node, st)
            == eval(store, meaning, fuel, at, node, st),
        forall|r: RewriteV|
            #![trigger is_safe(normalized(store[k], a, rs).0, r)]
            is_safe(store[k], r) && (forall|i: int| 0 <= i < rs.len() ==> (#[trigger] rs[i]).stmt
                != r.stmt) ==> is_safe(normalized(store[k], a, rs).0, r),
    decreases rs.len(),
{
    let p = store[k];
    if rs.len() == 0 {
        assert(store.insert(k, p) =~= store);
    } else {
        let rest = rs.drop_last();
        let last = rs.last();
        assert(rs[rs.len() - 1] == last);
        assert forall|i: int| 0 <= i < rest.len() implies is_safe(p, #[trigger] rest[i])
            && rest[i].stmt != last.stmt by {
            assert(is_safe(p, rs[i]));
        }
        assert forall|i: int, j: int| 0 <= i < j < rest.len() implies (#[trigger] rest[i]).stmt
            != (#[trigger] rest[j]).stmt by {
            assert(rs[i].stmt != rs[j].stmt);
        }
        lemma_normalized_eval(store, k, a, rest, meaning, fuel, at, node, st);
        lemma_normalized(store, k, a, rest);
        lemma_normalized_frame(p, a, rest);
        let (q, b) = normalized(p, a, rest);
        let mid = store.insert(k, q);
        assert(is_safe(q, last));
        assert(mid.insert(k, rewritten(q, b, last)) =~= store.insert(k, rewritten(q, b, last)));
        lemma_step_eval(mid, k, b, last, meaning, fuel, at, node, st);
        assert forall|r: RewriteV|
            #![trigger is_safe(normalized(p, a, rs).0, r)]
            is_safe(p, r) && (forall|i: int| 0 <= i < rs.len() ==> (#[trigger] rs[i]).stmt
                != r.stmt) implies is_safe(normalized(p, a, rs).0, r) by {
            assert forall|i: int| 0 <= i < rest.len() implies (#[trigger] rest[i]).stmt
                != r.stmt by {
                assert(rs[i].stmt != r.stmt);
            }
            assert(is_safe(q, r));
            lemma_still_safe(q, b, last, r);
        }
    }
}

/// Normalizing a package does not change what a program computes: whatever the other expressions
/// mean, every block and every expression of the store that runs to an outcome runs to the same
/// outcome afterwards, in the same number of nested steps.
///
/// Statements stand in one place each and no block is walked twice; no pattern binds the variable
/// that it takes apart; a block that does not end in an expression has the unit type.
pub proof fn lemma_normalization_preserves_outcomes<A, W>(
    store: Map<usize, PackageV>,
    package: PackageId,
    a: Assigner,
    meaning: Meaning<A, W>,
    fuel: nat,
    at: PackageId,
    node: Node,
    st: State<A, W>,
)
    requires
        reach_ok(store, package, Seq::empty()),
        is_fresh(a, store[package.0]),
        has_room(a, leaf_count(store[package.0], package_rewrites(store, package))),
        package_rewrites(store, package).no_duplicates(),
        forall|i: int|
            0 <= i < package_rewrites(store, package).len() ==> {
                let r = #[trigger] package_rewrites(store, package)[i];
                &&& stands_once(store[package.0], r.block, r.stmt)
                &&& block_typed(store[package.0], r.block)
                &&& !binds_source(store[package.0], r)
            },
        is_compositional(meaning),
        !(eval(store, meaning, fuel, at.0, node, st) is Stuck),
    ensures
        eval(
            store.insert(
                package.0,
                normalized(store[package.0], a, package_rewrites(store, package)).0,
            ),
            meaning,
            fuel,
            at.0,
            node,
            st,
        ) == eval(store, meaning, fuel, at.0, node, st),
{
    let p = store[package.0];
    let rs = package_rewrites(store, package);
    lemma_package_rewrites(store, package);
    assert forall|i: int| 0 <= i < rs.len() implies is_safe(p, #[trigger] rs[i]) by {
        let r = rs[i];
        assert(is_called_for(p, r));
        lemma_applicable(p, r);
        lemma_stmt_whole(p, r.block, r.stmt);
        assert forall|j: int| 0 <= j < p.blocks[r.block.0].stmts.len() implies p.stmts.contains_key(
            (#[trigger] p.blocks[r.block.0].stmts[j]).0,
        ) by {
            assert(p.blocks[r.block.0].stmts.contains(p.blocks[r.block.0].stmts[j]));
            lemma_stmt_whole(p, r.block, p.blocks[r.block.0].stmts[j]);
        }
    }
    assert forall|i: int, j: int| 0 <= i < j < rs.len() implies (#[trigger] rs[i]).stmt != (
    #[trigger] rs[j]).stmt by {
        if rs[i].stmt == rs[j].stmt {
            let (x, y) = (rs[i], rs[j]);
            assert(is_safe(p, x) && is_safe(p, y));
            assert(p.blocks.contains_key(x.block.0) && p.blocks.contains_key(y.block.0));
            assert(x.block.0 == y.block.0);
            assert(x == y);
        }
    }
    lemma_normalized_eval(store, package.0, a, rs, meaning, fuel, at.0, node, st);
}

} // verus!
