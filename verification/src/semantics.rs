//! What the nodes of a package compute.
//!
//! Reading local variables, positional projections, binding patterns and running the statements
//! of blocks are given a fixed meaning here. Whatever else an expression may do is left to a
//! parameter, so that what is proved holds for any such meaning.

use vstd::prelude::*;

use crate::fir::{ExprId, ExprKind, ExprKindV, ExprV, PackageV, Pat, PatId, PatKind, Res};
use crate::fir::{StmtId, StmtKind, TyV};
use crate::walk::Node;

verus! {

/// A value: a tuple of values, or something that no projection looks into.
pub enum Value<A> {
    Tuple(Seq<Value<A>>),
    Atom(A),
}

/// The values of the local variables, and everything else that running may change.
pub struct State<A, W> {
    pub locals: Map<usize, Value<A>>,
    pub world: W,
}

/// What running leads to: going on with a value, leaving early with a value, or neither, because
/// something is missing or the steps are used up.
pub enum Outcome<A, W> {
    Next(State<A, W>, Value<A>),
    Exit(State<A, W>, Value<A>),
    Stuck,
}

/// How to run a node of a package in a state.
pub type Run<A, W> = spec_fn(usize, Node, State<A, W>) -> Outcome<A, W>;

/// What an expression of a package does in a state, given how to run other nodes.
pub type Meaning<A, W> = spec_fn(usize, ExprV, Run<A, W>, State<A, W>) -> Outcome<A, W>;

/// The value of a statement that has none.
pub open spec fn unit_value<A>() -> Value<A> {
    Value::Tuple(seq![])
}

/// The type of that value.
pub open spec fn unit_ty() -> TyV {
    TyV::Tuple(seq![])
}

/// What stands in a nested tuple at the end of the path.
pub open spec fn project<A>(v: Value<A>, path: Seq<usize>) -> Option<Value<A>>
    decreases path.len(),
{
    if path.len() == 0 {
        Some(v)
    } else {
        match v {
            Value::Tuple(vs) => if path[0] < vs.len() {
                project(vs[path[0] as int], path.skip(1))
            } else {
                None
            },
            Value::Atom(_) => None,
        }
    }
}

/// The local variables after a pattern has been bound to a value, if it fits.
pub open spec fn bind<A>(
    pats: Map<usize, Pat>,
    id: PatId,
    depth: nat,
    v: Value<A>,
    locals: Map<usize, Value<A>>,
) -> Option<Map<usize, Value<A>>>
    decreases depth, 0nat,
{
    if depth == 0 || !pats.contains_key(id.0) {
        None
    } else {
        match pats[id.0].kind {
            PatKind::Bind(ident) => Some(locals.insert(ident.id.0, v)),
            PatKind::Discard => Some(locals),
            PatKind::Tuple(subs) => match v {
                Value::Tuple(vs) => if vs.len() == subs@.len() {
                    bind_all(pats, subs@, (depth - 1) as nat, vs, locals)
                } else {
                    None
                },
                Value::Atom(_) => None,
            },
        }
    }
}

/// The local variables after patterns have been bound to values, from left to right.
pub open spec fn bind_all<A>(
    pats: Map<usize, Pat>,
    subs: Seq<PatId>,
    depth: nat,
    vs: Seq<Value<A>>,
    locals: Map<usize, Value<A>>,
) -> Option<Map<usize, Value<A>>>
    decreases depth, subs.len(),
{
    if subs.len() == 0 {
        Some(locals)
    } else {
        match bind_all(pats, subs.drop_last(), depth, vs, locals) {
            Some(before) => bind(pats, subs.last(), depth, vs[subs.len() - 1], before),
            None => None,
        }
    }
}

/// The local variable that an expression reads, if it does nothing else.
pub open spec fn read_local(p: PackageV, e: ExprId) -> Option<usize> {
    if p.exprs.contains_key(e.0) {
        match p.exprs[e.0].kind {
            ExprKindV::Var(Res::Local(local), _) => Some(local.0),
            _ => None,
        }
    } else {
        None
    }
}

/// Going on with the value of a local variable, or with what a projection gets out of it.
pub open spec fn look_up<A, W>(st: State<A, W>, local: usize, path: Seq<usize>) -> Outcome<A, W> {
    if st.locals.contains_key(local) {
        match project(st.locals[local], path) {
            Some(v) => Outcome::Next(st, v),
            None => Outcome::Stuck,
        }
    } else {
        Outcome::Stuck
    }
}

/// Runs a block or an expression, nested in at most `fuel` levels. To project out of a local
/// variable is one step. A block of the unit type has the unit value. A statement has no meaning
/// outside its block.
pub open spec fn eval<A, W>(
    store: Map<usize, PackageV>,
    meaning: Meaning<A, W>,
    fuel: nat,
    k: usize,
    node: Node,
    st: State<A, W>,
) -> Outcome<A, W>
    decreases fuel, 0nat,
{
    if fuel == 0 || !store.contains_key(k) || !store[k].has(node) {
        Outcome::Stuck
    } else {
        let p = store[k];
        let less = (fuel - 1) as nat;
        match node {
            Node::Stmt(_) => Outcome::Stuck,
            Node::Block(b) => match run_stmts(store, meaning, less, k, p.blocks[b.0].stmts, st) {
                Outcome::Next(after, v) => Outcome::Next(
                    after,
                    if p.blocks[b.0].ty == unit_ty() {
                        unit_value()
                    } else {
                        v
                    },
                ),
                other => other,
            },
            Node::Expr(e) => match p.exprs[e.0].kind {
                ExprKindV::Var(Res::Local(local), _) => look_up(st, local.0, seq![]),
                ExprKindV::Field(base, path) => match read_local(p, base) {
                    Some(local) => look_up(st, local, path),
                    None => match eval(store, meaning, less, k, Node::Expr(base), st) {
                        Outcome::Next(after, v) => match project(v, path) {
                            Some(part) => Outcome::Next(after, part),
                            None => Outcome::Stuck,
                        },
                        other => other,
                    },
                },
                ExprKindV::Other(ExprKind::Block(b)) => eval(
                    store,
                    meaning,
                    less,
                    k,
                    Node::Block(b),
                    st,
                ),
                _ => meaning(k, p.exprs[e.0], runner(store, meaning, less), st),
            },
        }
    }
}

/// Running blocks and expressions, nested in at most `fuel` levels.
pub open spec fn runner<A, W>(
    store: Map<usize, PackageV>,
    meaning: Meaning<A, W>,
    fuel: nat,
) -> Run<A, W>
    decreases fuel, 1nat,
{
    |k: usize, node: Node, st: State<A, W>| eval(store, meaning, fuel, k, node, st)
}

/// Runs a statement.
pub open spec fn run_stmt<A, W>(
    store: Map<usize, PackageV>,
    meaning: Meaning<A, W>,
    fuel: nat,
    k: usize,
    s: StmtId,
    st: State<A, W>,
) -> Outcome<A, W>
    decreases fuel, 1nat,
{
    let p = store[k];
    if !store.contains_key(k) || !p.stmts.contains_key(s.0) {
        Outcome::Stuck
    } else {
        match p.stmts[s.0].kind {
            StmtKind::Expr(e) => eval(store, meaning, fuel, k, Node::Expr(e), st),
            StmtKind::Item(_) => Outcome::Next(st, unit_value()),
            StmtKind::Semi(e) => match eval(store, meaning, fuel, k, Node::Expr(e), st) {
                Outcome::Next(after, _) => Outcome::Next(after, unit_value()),
                other => other,
            },
            StmtKind::Local(_, pat, e) => match eval(store, meaning, fuel, k, Node::Expr(e), st) {
                Outcome::Next(after, v) => match bind(
                    p.pats,
                    pat,
                    p.pat_depth(),
                    v,
                    after.locals,
                ) {
                    Some(locals) => Outcome::Next(State { locals, ..after }, unit_value()),
                    None => Outcome::Stuck,
                },
                other => other,
            },
        }
    }
}

/// Runs statements, one after the other; the value is that of the last one.
pub open spec fn run_stmts<A, W>(
    store: Map<usize, PackageV>,
    meaning: Meaning<A, W>,
    fuel: nat,
    k: usize,
    stmts: Seq<StmtId>,
    st: State<A, W>,
) -> Outcome<A, W>
    decreases fuel, stmts.len() + 2,
{
    if stmts.len() == 0 {
        Outcome::Next(st, unit_value())
    } else {
        match run_stmts(store, meaning, fuel, k, stmts.drop_last(), st) {
            Outcome::Next(after, _) => run_stmt(store, meaning, fuel, k, stmts.last(), after),
            other => other,
        }
    }
}

/// Whether the second way to run does the same as the first one wherever that is not stuck.
pub open spec fn refines<A, W>(first: Run<A, W>, second: Run<A, W>) -> bool {
    forall|k: usize, node: Node, st: State<A, W>|
        !((#[trigger] first(k, node, st)) is Stuck) ==> second(k, node, st) == first(k, node, st)
}

/// Whether a meaning only uses how other nodes run: where these do the same or more, so does it.
pub open spec fn is_compositional<A, W>(meaning: Meaning<A, W>) -> bool {
    forall|k: usize, e: ExprV, first: Run<A, W>, second: Run<A, W>, st: State<A, W>|
        #![trigger meaning(k, e, first, st), meaning(k, e, second, st)]
        refines(first, second) && !(meaning(k, e, first, st) is Stuck) ==> meaning(
            k,
            e,
            second,
            st,
        ) == meaning(k, e, first, st)
}

} // verus!
