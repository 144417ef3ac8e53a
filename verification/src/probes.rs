//! Looking into a package for what a pass has made of its callables.

use vstd::prelude::*;
use vstd::string::StringExecFns;

use crate::fir::{
    BlockId, CallableDecl, CallableImpl, ExprId, ExprKind, ExprKindV, ExprV, Field, FieldPath,
    Functor, ItemKind, LocalItemId, LocalVarId, Mutability, Package, PackageId, PackageStore,
    PackageV, Pat, PatId, PatKind, Res, StmtId, StmtKind, StoreItemId, Ty, TyV, UnOp,
};
use crate::index_map::{keys_in_order, lemma_keys_below};
use crate::reachability::{collect_reachable_from_entry, item_ok, reach_ok, reachable_set};
use crate::shapes::{
    callable_named, find_callable, format_pat, is_whole_callable, item_name, item_text, pat_text,
};
use crate::text::{join, joined, same_text, sort_texts, sorted, texts};
use crate::walk::{
    body_nodes, callable_nodes, lemma_node_ok_deeper, lemma_walk_all_ok, pat_ok, Node,
};

verus! {

/// The variable of that name that a pattern binds; the first one from the left where there are
/// several.
pub open spec fn binding_named(
    pats: Map<usize, Pat>,
    id: PatId,
    name: Seq<char>,
    depth: nat,
) -> Option<LocalVarId>
    decreases depth, 0nat,
{
    if depth == 0 {
        None
    } else {
        match pats[id.0].kind {
            PatKind::Bind(ident) => if ident.name@ == name {
                Some(ident.id)
            } else {
                None
            },
            PatKind::Discard => None,
            PatKind::Tuple(subs) => first_binding_named(pats, subs@, name, (depth - 1) as nat),
        }
    }
}

/// The first variable of that name that the patterns bind.
pub open spec fn first_binding_named(
    pats: Map<usize, Pat>,
    ids: Seq<PatId>,
    name: Seq<char>,
    depth: nat,
) -> Option<LocalVarId>
    decreases depth, ids.len(),
{
    if ids.len() == 0 {
        None
    } else {
        match first_binding_named(pats, ids.drop_last(), name, depth) {
            Some(id) => Some(id),
            None => binding_named(pats, ids.last(), name, depth),
        }
    }
}

fn binding_of(package: &Package, pat_id: PatId, name: &str, Ghost(depth): Ghost<nat>) -> (r: Option<
    LocalVarId,
>)
    requires
        pat_ok(package@.pats, pat_id, depth),
    ensures
        r == binding_named(package@.pats, pat_id, name@, depth),
    decreases depth,
{
    match &package.get_pat(pat_id).kind {
        PatKind::Bind(ident) => if same_text(ident.name.as_str(), name) {
            Some(ident.id)
        } else {
            None
        },
        PatKind::Discard => None,
        PatKind::Tuple(subs) => {
            let mut i: usize = 0;
            let mut found: Option<LocalVarId> = None;
            while i < subs.len()
                invariant
                    i <= subs@.len(),
                    depth > 0,
                    forall|j: int|
                        0 <= j < subs@.len() ==> pat_ok(
                            package@.pats,
                            #[trigger] subs@[j],
                            (depth - 1) as nat,
                        ),
                    found == first_binding_named(
                        package@.pats,
                        subs@.take(i as int),
                        name@,
                        (depth - 1) as nat,
                    ),
                decreases subs@.len() - i,
            {
                assert(subs@.take(i + 1).drop_last() =~= subs@.take(i as int));
                if found.is_none() {
                    found = binding_of(package, subs[i], name, Ghost((depth - 1) as nat));
                }
                i = i + 1;
            }
            assert(subs@.take(i as int) =~= subs@);
            found
        },
    }
}

/// The variable of that name that a pattern binds; the first one from the left where there are
/// several.
pub fn find_pat_binding_id_by_name(package: &Package, pat_id: PatId, binding_name: &str) -> (r:
    Option<LocalVarId>)
    requires
        pat_ok(package@.pats, pat_id, package@.pat_depth()),
    ensures
        r == binding_named(package@.pats, pat_id, binding_name@, package@.pat_depth()),
{
    binding_of(package, pat_id, binding_name, Ghost(package@.pat_depth()))
}

/// The names that a pattern binds, from left to right.
pub open spec fn binding_names(pats: Map<usize, Pat>, id: PatId, depth: nat) -> Seq<Seq<char>>
    decreases depth, 0nat,
{
    if depth == 0 {
        seq![]
    } else {
        match pats[id.0].kind {
            PatKind::Bind(ident) => seq![ident.name@],
            PatKind::Discard => seq![],
            PatKind::Tuple(subs) => all_binding_names(pats, subs@, (depth - 1) as nat),
        }
    }
}

/// The names that the patterns bind, from left to right.
pub open spec fn all_binding_names(
    pats: Map<usize, Pat>,
    ids: Seq<PatId>,
    depth: nat,
) -> Seq<Seq<char>>
    decreases depth, ids.len(),
{
    if ids.len() == 0 {
        seq![]
    } else {
        all_binding_names(pats, ids.drop_last(), depth) + binding_names(pats, ids.last(), depth)
    }
}

fn note_binding_names(
    package: &Package,
    pat_id: PatId,
    Ghost(depth): Ghost<nat>,
    names: &mut Vec<String>,
)
    requires
        pat_ok(package@.pats, pat_id, depth),
    ensures
        texts(final(names)@) == texts(old(names)@) + binding_names(package@.pats, pat_id, depth),
    decreases depth,
{
    match &package.get_pat(pat_id).kind {
        PatKind::Bind(ident) => {
            names.push(ident.name.clone());
            assert(texts(names@) =~= texts(old(names)@) + seq![ident.name@]);
        },
        PatKind::Discard => {
            assert(texts(names@) =~= texts(old(names)@) + seq![]);
        },
        PatKind::Tuple(subs) => {
            let mut i: usize = 0;
            assert(texts(names@) =~= texts(old(names)@) + all_binding_names(
                package@.pats,
                subs@.take(0),
                (depth - 1) as nat,
            ));
            while i < subs.len()
                invariant
                    i <= subs@.len(),
                    depth > 0,
                    forall|j: int|
                        0 <= j < subs@.len() ==> pat_ok(
                            package@.pats,
                            #[trigger] subs@[j],
                            (depth - 1) as nat,
                        ),
                    texts(names@) == texts(old(names)@) + all_binding_names(
                        package@.pats,
                        subs@.take(i as int),
                        (depth - 1) as nat,
                    ),
                decreases subs@.len() - i,
            {
                assert(subs@.take(i + 1).drop_last() =~= subs@.take(i as int));
                note_binding_names(package, subs[i], Ghost((depth - 1) as nat), names);
                assert(texts(names@) =~= texts(old(names)@) + all_binding_names(
                    package@.pats,
                    subs@.take(i + 1),
                    (depth - 1) as nat,
                ));
                i = i + 1;
            }
            assert(subs@.take(i as int) =~= subs@);
        },
    }
}

/// Adds the names that a pattern binds, from left to right.
pub fn collect_pat_binding_names(package: &Package, pat_id: PatId, names: &mut Vec<String>)
    requires
        pat_ok(package@.pats, pat_id, package@.pat_depth()),
    ensures
        texts(final(names)@) == texts(old(names)@) + binding_names(
            package@.pats,
            pat_id,
            package@.pat_depth(),
        ),
{
    note_binding_names(package, pat_id, Ghost(package@.pat_depth()), names);
}

/// The names that the input of a callable binds, sorted.
pub fn callable_input_binding_names(package: &Package, callable_name: &str) -> (r: Vec<String>)
    requires
        is_whole_callable(package@, callable_name@),
    ensures
        texts(r@) == sorted(
            binding_names(
                package@.pats,
                callable_named(package@, callable_name@)->0.input,
                package@.pat_depth(),
            ),
        ),
{
    let callable = find_callable(package, callable_name).unwrap();
    let mut names: Vec<String> = Vec::new();
    collect_pat_binding_names(package, callable.input, &mut names);
    assert(texts(names@) =~= binding_names(
        package@.pats,
        callable.input,
        package@.pat_depth(),
    ));
    sort_texts(&names)
}

/// The block of a callable: its body, or what simulates it.
pub open spec fn body_block(implementation: CallableImpl) -> Option<BlockId> {
    match implementation {
        CallableImpl::Spec(specs) => Some(specs.body.block),
        CallableImpl::SimulatableIntrinsic(spec) => Some(spec.block),
        CallableImpl::Intrinsic => None,
    }
}

/// The block of a callable; an intrinsic has none.
pub fn callable_body_block_id(package: &Package, callable_name: &str) -> (r: Option<BlockId>)
    requires
        callable_named(package@, callable_name@) is Some,
    ensures
        r == body_block(callable_named(package@, callable_name@)->0.implementation),
{
    match &find_callable(package, callable_name).unwrap().implementation {
        CallableImpl::Spec(specs) => Some(specs.body.block),
        CallableImpl::SimulatableIntrinsic(spec) => Some(spec.block),
        CallableImpl::Intrinsic => None,
    }
}

/// The argument of an expression that calls the item of that name directly.
pub open spec fn direct_call_arg(p: PackageV, e: ExprId, name: Seq<char>) -> Option<ExprId> {
    match p.exprs[e.0].kind {
        ExprKindV::Other(ExprKind::Call(callee, arg)) => match p.exprs[callee.0].kind {
            ExprKindV::Var(Res::Item(id), _) => if item_text(p, id) == name {
                Some(arg)
            } else {
                None
            },
            _ => None,
        },
        _ => None,
    }
}

/// The argument of an expression that calls the item of that name directly.
pub fn expect_direct_item_call(package: &Package, expr_id: ExprId, expected_callee: &str) -> (r:
    Option<ExprId>)
    requires
        package@.node_ok(Node::Expr(expr_id), package@.node_depth()),
    ensures
        r == direct_call_arg(package@, expr_id, expected_callee@),
{
    if let ExprKind::Call(callee_id, arg_id) = &package.get_expr(expr_id).kind {
        assert(package@.node_ok(
            package@.parts(Node::Expr(expr_id))[0],
            (package@.node_depth() - 1) as nat,
        ));
        if let ExprKind::Var(Res::Item(item_id), _) = &package.get_expr(*callee_id).kind {
            if same_text(item_name(package, item_id).as_str(), expected_callee) {
                return Some(*arg_id);
            }
        }
    }
    None
}

/// The argument of an expression that calls the item of that name under a functor.
pub open spec fn functor_call_arg(
    p: PackageV,
    e: ExprId,
    functor: Functor,
    name: Seq<char>,
) -> Option<ExprId> {
    match p.exprs[e.0].kind {
        ExprKindV::Other(ExprKind::Call(callee, arg)) => match p.exprs[callee.0].kind {
            ExprKindV::Other(ExprKind::UnOp(UnOp::Functor(actual), inner)) => match p.exprs[
                inner.0
            ].kind {
                ExprKindV::Var(Res::Item(id), _) => if actual == functor && item_text(p, id)
                    == name {
                    Some(arg)
                } else {
                    None
                },
                _ => None,
            },
            _ => None,
        },
        _ => None,
    }
}

/// The argument of the first of the nodes that calls the item of that name under a functor.
pub open spec fn first_functor_call_arg(
    p: PackageV,
    nodes: Seq<Node>,
    functor: Functor,
    name: Seq<char>,
) -> Option<ExprId>
    decreases nodes.len(),
{
    if nodes.len() == 0 {
        None
    } else {
        match first_functor_call_arg(p, nodes.drop_last(), functor, name) {
            Some(arg) => Some(arg),
            None => match nodes.last() {
                Node::Expr(e) => functor_call_arg(p, e, functor, name),
                _ => None,
            },
        }
    }
}

fn functor_call_arg_of(package: &Package, expr_id: ExprId, functor: Functor, name: &str) -> (r:
    Option<ExprId>)
    requires
        package@.node_ok(Node::Expr(expr_id), package@.node_depth()),
    ensures
        r == functor_call_arg(package@, expr_id, functor, name@),
        r matches Some(arg) ==> package@.node_ok(Node::Expr(arg), package@.node_depth()),
{
    let ghost p = package@;
    let ghost depth = p.node_depth();
    if let ExprKind::Call(callee_id, arg_id) = &package.get_expr(expr_id).kind {
        assert(p.node_ok(p.parts(Node::Expr(expr_id))[0], (depth - 1) as nat));
        if let ExprKind::UnOp(UnOp::Functor(actual), inner_id) = &package.get_expr(
            *callee_id,
        ).kind {
            assert(p.node_ok(p.parts(Node::Expr(*callee_id))[0], (depth - 2) as nat));
            if let ExprKind::Var(Res::Item(item_id), _) = &package.get_expr(*inner_id).kind {
                if *actual == functor && same_text(item_name(package, item_id).as_str(), name) {
                    proof {
                        assert(p.node_ok(p.parts(Node::Expr(expr_id))[1], (depth - 1) as nat));
                        lemma_node_ok_deeper(
                            p,
                            Node::Expr(*arg_id),
                            (depth - 1) as nat,
                            depth,
                        );
                    }
                    return Some(*arg_id);
                }
            }
        }
    }
    None
}

/// The argument of the first call in a callable, in walking order, whose callee is the item of
/// that name under a functor, as in `Controlled Foo(args)` or `Adjoint Foo(args)`.
pub fn find_functor_call_arg(
    package: &Package,
    callable_name: &str,
    functor: Functor,
    expected_callee: &str,
) -> (r: Option<ExprId>)
    requires
        is_whole_callable(package@, callable_name@),
    ensures
        r == first_functor_call_arg(
            package@,
            package@.callable_walk(callable_named(package@, callable_name@)->0.implementation),
            functor,
            expected_callee@,
        ),
        r matches Some(arg) ==> package@.node_ok(Node::Expr(arg), package@.node_depth()),
{
    let ghost p = package@;
    let callable = find_callable(package, callable_name).unwrap();
    proof {
        lemma_walk_all_ok(p, body_nodes(callable.implementation), p.node_depth());
    }
    let nodes = callable_nodes(package, callable);
    let mut found: Option<ExprId> = None;
    let mut i: usize = 0;
    while i < nodes.len()
        invariant
            i <= nodes@.len(),
            p == package@,
            forall|j: int|
                0 <= j < nodes@.len() ==> p.node_ok(#[trigger] nodes@[j], p.node_depth()),
            found == first_functor_call_arg(
                p,
                nodes@.take(i as int),
                functor,
                expected_callee@,
            ),
            found matches Some(arg) ==> p.node_ok(Node::Expr(arg), p.node_depth()),
        decreases nodes@.len() - i,
    {
        assert(nodes@.take(i + 1).drop_last() =~= nodes@.take(i as int));
        if found.is_none() {
            if let Node::Expr(expr_id) = nodes[i] {
                found = functor_call_arg_of(package, expr_id, functor, expected_callee);
            }
        }
        i = i + 1;
    }
    assert(nodes@.take(i as int) =~= nodes@);
    found
}

/// The block of a block whose only statement is a block expression.
pub open spec fn only_inner_block(p: PackageV, block: BlockId) -> Option<BlockId> {
    let stmts = p.blocks[block.0].stmts;
    if stmts.len() == 1 {
        match p.stmts[stmts[0].0].kind {
            StmtKind::Expr(e) => match p.exprs[e.0].kind {
                ExprKindV::Other(ExprKind::Block(inner)) => Some(inner),
                _ => None,
            },
            _ => None,
        }
    } else {
        None
    }
}

/// The block of a callable whose body is nothing but a block expression.
pub fn expect_single_expr_block_in_callable(package: &Package, callable_name: &str) -> (r: Option<
    BlockId,
>)
    requires
        callable_named(package@, callable_name@) is Some,
        body_block(callable_named(package@, callable_name@)->0.implementation) matches Some(body)
            ==> package@.node_ok(Node::Block(body), package@.node_depth()),
    ensures
        r == (match body_block(callable_named(package@, callable_name@)->0.implementation) {
            Some(body) => only_inner_block(package@, body),
            None => None,
        }),
{
    let ghost p = package@;
    let ghost depth = p.node_depth();
    let body = match callable_body_block_id(package, callable_name) {
        Some(body) => body,
        None => return None,
    };
    let block = package.get_block(body);
    if block.stmts.len() != 1 {
        return None;
    }
    let ghost stmt = Node::Stmt(block.stmts@[0]);
    assert(p.node_ok(p.parts(Node::Block(body))[0], (depth - 1) as nat));
    if let StmtKind::Expr(expr_id) = package.get_stmt(block.stmts[0]).kind {
        assert(p.node_ok(p.parts(stmt)[0], (depth - 2) as nat));
        if let ExprKind::Block(inner) = &package.get_expr(expr_id).kind {
            return Some(*inner);
        }
    }
    None
}

/// The temporary and the result of a block that binds a direct call of the item of that name to a
/// temporary and then gives an expression.
pub open spec fn bound_call(p: PackageV, block: BlockId, name: Seq<char>) -> Option<
    (LocalVarId, ExprId),
> {
    let stmts = p.blocks[block.0].stmts;
    if stmts.len() == 2 {
        match (p.stmts[stmts[0].0].kind, p.stmts[stmts[1].0].kind) {
            (StmtKind::Local(Mutability::Immutable, pat, init), StmtKind::Expr(result)) => match (
                p.pats[pat.0].kind,
                direct_call_arg(p, init, name),
            ) {
                (PatKind::Bind(ident), Some(_)) => Some((ident.id, result)),
                _ => None,
            },
            _ => None,
        }
    } else {
        None
    }
}

/// The temporary and the result of a block that binds a direct call of the item of that name to a
/// temporary and then gives an expression.
pub fn expect_block_binds_call_then_returns_expr(
    package: &Package,
    block_id: BlockId,
    expected_callee: &str,
) -> (r: Option<(LocalVarId, ExprId)>)
    requires
        package@.node_ok(Node::Block(block_id), package@.node_depth()),
    ensures
        r == bound_call(package@, block_id, expected_callee@),
{
    let ghost p = package@;
    let ghost depth = p.node_depth();
    let block = package.get_block(block_id);
    if block.stmts.len() != 2 {
        return None;
    }
    assert(p.node_ok(p.parts(Node::Block(block_id))[0], (depth - 1) as nat));
    assert(p.node_ok(p.parts(Node::Block(block_id))[1], (depth - 1) as nat));
    let ghost bind = Node::Stmt(block.stmts@[0]);
    if let StmtKind::Local(mutability, pat_id, init_id) = package.get_stmt(block.stmts[0]).kind {
        proof {
            assert(p.node_ok(p.parts(bind)[0], (depth - 2) as nat));
            lemma_node_ok_deeper(p, Node::Expr(init_id), (depth - 2) as nat, depth);
        }
        if let StmtKind::Expr(result_id) = package.get_stmt(block.stmts[1]).kind {
            if let PatKind::Bind(ident) = &package.get_pat(pat_id).kind {
                if mutability == Mutability::Immutable && expect_direct_item_call(
                    package,
                    init_id,
                    expected_callee,
                ).is_some() {
                    return Some((ident.id, result_id));
                }
            }
        }
    }
    None
}

/// Whether an expression projects out of a local variable along a path.
pub open spec fn is_projection(
    p: PackageV,
    e: ExprId,
    local: LocalVarId,
    path: Seq<usize>,
) -> bool {
    p.exprs[e.0].kind matches ExprKindV::Field(base, actual) && actual == path
        && (p.exprs[base.0].kind matches ExprKindV::Var(Res::Local(from), _) && from == local)
}

fn same_path(a: &Vec<usize>, b: &Vec<usize>) -> (r: bool)
    ensures
        r == (a@ == b@),
{
    if a.len() != b.len() {
        return false;
    }
    let mut i: usize = 0;
    while i < a.len()
        invariant
            i <= a@.len(),
            a@.len() == b@.len(),
            forall|j: int| 0 <= j < i ==> a@[j] == b@[j],
        decreases a@.len() - i,
    {
        if a[i] != b[i] {
            return false;
        }
        i = i + 1;
    }
    assert(a@ =~= b@);
    true
}

/// Whether an expression is a tuple of projections out of a local variable along these paths.
pub fn expect_projected_tuple_from_local(
    package: &Package,
    tuple_expr_id: ExprId,
    expected_local: LocalVarId,
    expected_index_paths: &Vec<Vec<usize>>,
) -> (r: bool)
    requires
        package@.node_ok(Node::Expr(tuple_expr_id), package@.node_depth()),
    ensures
        r == (package@.exprs[tuple_expr_id.0].kind matches ExprKindV::Other(
            ExprKind::Tuple(items),
        ) && items@.len() == expected_index_paths@.len() && (forall|i: int|
            0 <= i < items@.len() ==> is_projection(
                package@,
                #[trigger] items@[i],
                expected_local,
                expected_index_paths@[i]@,
            ))),
{
    let ghost p = package@;
    let ghost depth = p.node_depth();
    let ghost node = Node::Expr(tuple_expr_id);
    if let ExprKind::Tuple(items) = &package.get_expr(tuple_expr_id).kind {
        if items.len() != expected_index_paths.len() {
            return false;
        }
        assert forall|j: int| 0 <= j < items@.len() implies p.node_ok(
            Node::Expr(#[trigger] items@[j]),
            (depth - 1) as nat,
        ) by {
            assert(p.node_ok(p.parts(node)[j], (depth - 1) as nat));
        }
        let mut i: usize = 0;
        while i < items.len()
            invariant
                i <= items@.len(),
                items@.len() == expected_index_paths@.len(),
                p == package@,
                depth > 0,
                p.exprs[tuple_expr_id.0].kind == ExprKindV::Other(ExprKind::Tuple(*items)),
                forall|j: int|
                    0 <= j < items@.len() ==> p.node_ok(
                        Node::Expr(#[trigger] items@[j]),
                        (depth - 1) as nat,
                    ),
                forall|j: int|
                    0 <= j < i ==> is_projection(
                        p,
                        #[trigger] items@[j],
                        expected_local,
                        expected_index_paths@[j]@,
                    ),
            decreases items@.len() - i,
        {
            let mut fits = false;
            let ghost item = Node::Expr(items@[i as int]);
            assert(p.node_ok(item, (depth - 1) as nat));
            if let ExprKind::Field(base_id, Field::Path(path)) = &package.get_expr(items[i]).kind {
                assert(p.node_ok(p.parts(item)[0], (depth - 2) as nat));
                if let ExprKind::Var(Res::Local(local), _) = &package.get_expr(*base_id).kind {
                    fits = *local == expected_local && same_path(
                        &path.indices,
                        &expected_index_paths[i],
                    );
                }
            }
            if !fits {
                assert(!is_projection(
                    p,
                    items@[i as int],
                    expected_local,
                    expected_index_paths@[i as int]@,
                ));
                return false;
            }
            i = i + 1;
        }
        true
    } else {
        false
    }
}

/// The block in the payload of a controlled call: the argument is a pair of an array of controls
/// and a block expression.
pub open spec fn payload_block(p: PackageV, arg: ExprId) -> Option<BlockId> {
    match p.exprs[arg.0].kind {
        ExprKindV::Other(ExprKind::Tuple(items)) => if items@.len() == 2 {
            match (p.exprs[items@[0].0].kind, p.exprs[items@[1].0].kind) {
                (
                    ExprKindV::Other(ExprKind::Array(_)),
                    ExprKindV::Other(ExprKind::Block(block)),
                ) => Some(block),
                _ => None,
            }
        } else {
            None
        },
        _ => None,
    }
}

/// The block in the payload of the first controlled call of the item of that name in a callable:
/// the argument stays a pair of an array of controls and a block expression.
pub fn expect_controlled_payload_block(
    package: &Package,
    callable_name: &str,
    expected_callee: &str,
) -> (r: Option<BlockId>)
    requires
        is_whole_callable(package@, callable_name@),
    ensures
        r == (match first_functor_call_arg(
            package@,
            package@.callable_walk(callable_named(package@, callable_name@)->0.implementation),
            Functor::Ctl,
            expected_callee@,
        ) {
            Some(arg) => payload_block(package@, arg),
            None => None,
        }),
{
    let ghost p = package@;
    let ghost depth = p.node_depth();
    if let Some(arg_id) = find_functor_call_arg(
        package,
        callable_name,
        Functor::Ctl,
        expected_callee,
    ) {
        if let ExprKind::Tuple(items) = &package.get_expr(arg_id).kind {
            if items.len() == 2 {
                let ghost arg = Node::Expr(arg_id);
                assert(p.node_ok(p.parts(arg)[0], (depth - 1) as nat));
                assert(p.node_ok(p.parts(arg)[1], (depth - 1) as nat));
                if let ExprKind::Array(_) = &package.get_expr(items[0]).kind {
                    if let ExprKind::Block(block_id) = &package.get_expr(items[1]).kind {
                        return Some(*block_id);
                    }
                }
            }
        }
    }
    None
}

/// The projections directly out of a local variable among the given nodes, each with the
/// expression that reads the variable, in order. An empty path projects nothing.
pub open spec fn direct_fields(p: PackageV, nodes: Seq<Node>, local: LocalVarId) -> Seq<
    (ExprId, ExprId),
>
    decreases nodes.len(),
{
    if nodes.len() == 0 {
        seq![]
    } else {
        let before = direct_fields(p, nodes.drop_last(), local);
        match nodes.last() {
            Node::Expr(e) => match p.exprs[e.0].kind {
                ExprKindV::Field(inner, path) => match p.exprs[inner.0].kind {
                    ExprKindV::Var(Res::Local(from), _) => if from == local && path.len() > 0 {
                        before.push((e, inner))
                    } else {
                        before
                    },
                    _ => before,
                },
                _ => before,
            },
            _ => before,
        }
    }
}

/// The expressions with one projection taken along another path out of another expression.
pub open spec fn with_field(
    exprs: Map<usize, ExprV>,
    e: ExprId,
    inner: ExprId,
    path: Seq<usize>,
) -> Map<usize, ExprV> {
    exprs.insert(e.0, ExprV { kind: ExprKindV::Field(inner, path), ..exprs[e.0] })
}

/// The variable that the input of a callable binds under that name, where the first element of
/// the input is a tuple.
pub open spec fn nested_input_binding(
    p: PackageV,
    decl: CallableDecl,
    name: Seq<char>,
) -> Option<LocalVarId> {
    match p.pats[decl.input.0].ty@ {
        TyV::Tuple(elems) => if elems.len() > 0 && elems[0] is Tuple {
            binding_named(p.pats, decl.input, name, p.pat_depth())
        } else {
            None
        },
        _ => None,
    }
}

/// The package with the first two of the projections made to share the expression that reads the
/// variable: the first element of the nested tuple from one, the second from the other.
pub open spec fn with_shared_inner(p: PackageV, fields: Seq<(ExprId, ExprId)>) -> PackageV {
    let inner = fields[0].1;
    PackageV {
        exprs: with_field(
            with_field(p.exprs, fields[0].0, inner, seq![0, 0]),
            fields[1].0,
            inner,
            seq![0, 1],
        ),
        ..p
    }
}

fn direct_fields_of(package: &Package, callable: &CallableDecl, local: LocalVarId) -> (r: Vec<
    (ExprId, ExprId),
>)
    requires
        package@.callable_ok(*callable),
    ensures
        r@ == direct_fields(package@, package@.callable_walk(callable.implementation), local),
        forall|i: int|
            0 <= i < r@.len() ==> package@.exprs.contains_key((#[trigger] r@[i]).0.0),
{
    let ghost p = package@;
    proof {
        lemma_walk_all_ok(p, body_nodes(callable.implementation), p.node_depth());
    }
    let nodes = callable_nodes(package, callable);
    let mut r: Vec<(ExprId, ExprId)> = Vec::new();
    let mut i: usize = 0;
    while i < nodes.len()
        invariant
            i <= nodes@.len(),
            p == package@,
            forall|j: int|
                0 <= j < nodes@.len() ==> p.node_ok(#[trigger] nodes@[j], p.node_depth()),
            r@ == direct_fields(p, nodes@.take(i as int), local),
            forall|i: int| 0 <= i < r@.len() ==> p.exprs.contains_key((#[trigger] r@[i]).0.0),
        decreases nodes@.len() - i,
    {
        assert(nodes@.take(i + 1).drop_last() =~= nodes@.take(i as int));
        if let Node::Expr(expr_id) = nodes[i] {
            let ghost node = nodes@[i as int];
            if let ExprKind::Field(inner_id, Field::Path(path)) = &package.get_expr(expr_id).kind {
                assert(p.node_ok(p.parts(node)[0], (p.node_depth() - 1) as nat));
                if let ExprKind::Var(Res::Local(from), _) = &package.get_expr(*inner_id).kind {
                    if *from == local && path.indices.len() > 0 {
                        r.push((expr_id, *inner_id));
                    }
                }
            }
        }
        i = i + 1;
    }
    assert(nodes@.take(i as int) =~= nodes@);
    r
}

fn set_field(package: &mut Package, expr_id: ExprId, inner_id: ExprId, a: usize, b: usize)
    requires
        old(package)@.exprs.contains_key(expr_id.0),
    ensures
        final(package)@ == (PackageV {
            exprs: with_field(old(package)@.exprs, expr_id, inner_id, seq![a, b]),
            ..old(package)@
        }),
{
    let mut indices: Vec<usize> = Vec::new();
    indices.push(a);
    indices.push(b);
    assert(indices@ =~= seq![a, b]);
    let expr = package.exprs.get_mut(expr_id.0);
    expr.kind = ExprKind::Field(inner_id, Field::Path(FieldPath { indices }));
    assert(package@.exprs =~= with_field(old(package)@.exprs, expr_id, inner_id, seq![a, b]));
}

/// Whether a type is a tuple whose first element is a tuple.
fn starts_with_tuple(ty: &Ty) -> (r: bool)
    ensures
        r == (ty@ matches TyV::Tuple(elems) && elems.len() > 0 && elems[0] is Tuple),
{
    if let Ty::Tuple(elems) = ty {
        if elems.len() > 0 {
            let first: &Ty = &elems[0];
            assert(ty@->Tuple_0[0] == first@);
            return matches!(first, Ty::Tuple(_));
        }
    }
    false
}

/// Makes the first two projections out of the named input of a callable share the expression that
/// reads it, and says whether there were two to share.
pub fn force_shared_nested_field_inner_expr(
    store: &mut PackageStore,
    package_id: PackageId,
    callable_name: &str,
    binding_name: &str,
) -> (r: bool)
    requires
        old(store)@.contains_key(package_id.0),
        is_whole_callable(old(store)@[package_id.0], callable_name@),
    ensures
        ({
            let p = old(store)@[package_id.0];
            let decl = callable_named(p, callable_name@)->0;
            let local = nested_input_binding(p, decl, binding_name@);
            let fields = direct_fields(p, p.callable_walk(decl.implementation), local->0);
            &&& r == (local is Some && fields.len() >= 2)
            &&& final(store)@ == if r {
                old(store)@.insert(package_id.0, with_shared_inner(p, fields))
            } else {
                old(store)@
            }
        }),
{
    let package = store.get(package_id);
    let callable = find_callable(package, callable_name).unwrap();
    if !starts_with_tuple(&package.get_pat(callable.input).ty) {
        return false;
    }
    let local = match find_pat_binding_id_by_name(package, callable.input, binding_name) {
        Some(local) => local,
        None => return false,
    };
    let fields = direct_fields_of(package, callable, local);
    if fields.len() < 2 {
        return false;
    }
    let package = store.get_mut(package_id);
    set_field(package, fields[0].0, fields[0].1, 0, 0);
    set_field(package, fields[1].0, fields[0].1, 0, 1);
    true
}

/// The patterns that the `let`s of a block bind, each on a line of its own.
pub open spec fn local_lines(p: PackageV, stmts: Seq<StmtId>) -> Seq<Seq<char>>
    decreases stmts.len(),
{
    if stmts.len() == 0 {
        seq![]
    } else {
        let before = local_lines(p, stmts.drop_last());
        match p.stmts[stmts.last().0].kind {
            StmtKind::Local(Mutability::Mutable, pat, _) => before.push(
                "  local: mutable "@ + pat_text(p.pats, pat, p.pat_depth()),
            ),
            StmtKind::Local(Mutability::Immutable, pat, _) => before.push(
                "  local: "@ + pat_text(p.pats, pat, p.pat_depth()),
            ),
            _ => before,
        }
    }
}

/// A callable with its input, and the patterns that the `let`s of its body bind.
pub open spec fn callable_text(p: PackageV, decl: CallableDecl) -> Seq<char> {
    let header = "Callable "@ + decl.name.name@ + ": input="@ + pat_text(
        p.pats,
        decl.input,
        p.pat_depth(),
    );
    joined(
        seq![header] + match decl.implementation {
            CallableImpl::Spec(specs) => local_lines(p, p.blocks[specs.body.block.0].stmts),
            _ => seq![],
        },
        "\n"@,
    )
}

/// Those of the given items that are reachable callables, in order.
pub open spec fn callable_texts(
    p: PackageV,
    package: PackageId,
    reachable: Set<StoreItemId>,
    items: Seq<usize>,
) -> Seq<Seq<char>>
    decreases items.len(),
{
    if items.len() == 0 {
        seq![]
    } else {
        let before = callable_texts(p, package, reachable, items.drop_last());
        let id = StoreItemId { package, item: LocalItemId(items.last()) };
        match p.items[items.last()].kind {
            ItemKind::Callable(decl) if reachable.contains(id) => before.push(
                callable_text(p, *decl),
            ),
            _ => before,
        }
    }
}

fn format_callable(package: &Package, decl: &CallableDecl) -> (r: String)
    requires
        package@.callable_ok(*decl),
    ensures
        r@ == callable_text(package@, *decl),
{
    let ghost p = package@;
    let mut header = String::from_str("Callable ");
    header.append(decl.name.name.as_str());
    header.append(": input=");
    header.append(format_pat(package, decl.input).as_str());
    let mut parts: Vec<String> = Vec::new();
    parts.push(header);
    let ghost first = seq![header@];
    assert(texts(parts@) =~= first);
    if let CallableImpl::Spec(specs) = &decl.implementation {
        let ghost body = Node::Block(specs.body.block);
        assert(body_nodes(decl.implementation)[0] == body);
        assert(p.node_ok(body, p.node_depth()));
        let block = package.get_block(specs.body.block);
        let ghost stmts = block.stmts@;
        let mut i: usize = 0;
        assert(first + local_lines(p, stmts.take(0)) =~= first);
        while i < block.stmts.len()
            invariant
                i <= stmts.len(),
                p == package@,
                stmts == block.stmts@,
                stmts == p.blocks[specs.body.block.0].stmts,
                body == Node::Block(specs.body.block),
                p.node_ok(body, p.node_depth()),
                texts(parts@) == first + local_lines(p, stmts.take(i as int)),
            decreases stmts.len() - i,
        {
            assert(stmts.take(i + 1).drop_last() =~= stmts.take(i as int));
            assert(p.node_ok(p.parts(body)[i as int], (p.node_depth() - 1) as nat));
            if let StmtKind::Local(mutability, pat_id, _) = package.get_stmt(block.stmts[i]).kind {
                let mut line = match mutability {
                    Mutability::Mutable => String::from_str("  local: mutable "),
                    Mutability::Immutable => String::from_str("  local: "),
                };
                line.append(format_pat(package, pat_id).as_str());
                let ghost before = parts@;
                parts.push(line);
                assert(texts(parts@) =~= texts(before).push(line@));
                assert(texts(parts@) =~= first + local_lines(p, stmts.take(i + 1)));
            }
            i = i + 1;
        }
        assert(stmts.take(i as int) =~= stmts);
    } else {
        assert(texts(parts@) =~= first + seq![]);
    }
    join(&parts, "\n")
}

/// The callables of the package that its entry expression reaches, each with its input and the
/// patterns that the `let`s of its body bind, sorted.
pub fn extract_result(store: &PackageStore, package_id: PackageId) -> (r: String)
    requires
        reach_ok(store@, package_id, Seq::empty()),
    ensures
        r@ == joined(
            sorted(
                callable_texts(
                    store@[package_id.0],
                    package_id,
                    reachable_set(store@, package_id, Seq::empty()),
                    keys_in_order(store@[package_id.0].items.dom()),
                ),
            ),
            "\n"@,
        ),
{
    let reachable = collect_reachable_from_entry(store, package_id);
    let package = store.get(package_id);
    let items = package.items.keys();
    let ghost p = package@;
    proof {
        lemma_keys_below(p.items.dom(), usize::MAX as nat + 1);
    }
    let mut entries: Vec<String> = Vec::new();
    let mut i: usize = 0;
    while i < items.len()
        invariant
            i <= items@.len(),
            reach_ok(store@, package_id, Seq::empty()),
            p == package@,
            p == store@[package_id.0],
            reachable@ == reachable_set(store@, package_id, Seq::empty()),
            forall|k: usize| #[trigger] items@.contains(k) ==> p.items.contains_key(k),
            texts(entries@) == callable_texts(p, package_id, reachable@, items@.take(i as int)),
        decreases items@.len() - i,
    {
        assert(items@.take(i + 1).drop_last() =~= items@.take(i as int));
        assert(items@.contains(items@[i as int]));
        let id = LocalItemId(items[i]);
        if reachable.contains(&StoreItemId { package: package_id, item: id }) {
            assert(item_ok(store@, StoreItemId { package: package_id, item: id }));
            if let ItemKind::Callable(decl) = &package.get_item(id).kind {
                let entry = format_callable(package, decl);
                let ghost before = entries@;
                entries.push(entry);
                assert(texts(entries@) =~= texts(before).push(entry@));
            }
        }
        i = i + 1;
    }
    assert(items@.take(i as int) =~= items@);
    join(&sort_texts(&entries), "\n")
}

/// The items behind the closures among the given nodes, in order.
pub open spec fn closure_items(p: PackageV, nodes: Seq<Node>) -> Seq<usize>
    decreases nodes.len(),
{
    if nodes.len() == 0 {
        seq![]
    } else {
        let before = closure_items(p, nodes.drop_last());
        match nodes.last() {
            Node::Expr(e) => match p.exprs[e.0].kind {
                ExprKindV::Other(ExprKind::Closure(_, item)) => before.push(item.0),
                _ => before,
            },
            _ => before,
        }
    }
}

/// The items behind the closures in those of the given items that are reachable callables.
pub open spec fn closure_targets(
    p: PackageV,
    package: PackageId,
    reachable: Set<StoreItemId>,
    items: Seq<usize>,
) -> Seq<usize>
    decreases items.len(),
{
    if items.len() == 0 {
        seq![]
    } else {
        let before = closure_targets(p, package, reachable, items.drop_last());
        let id = StoreItemId { package, item: LocalItemId(items.last()) };
        match p.items[items.last()].kind {
            ItemKind::Callable(decl) if reachable.contains(id) => before + closure_items(
                p,
                p.callable_walk(decl.implementation),
            ),
            _ => before,
        }
    }
}

/// The names of those of the given items that are callables behind closures, in order.
pub open spec fn target_names(p: PackageV, targets: Seq<usize>, items: Seq<usize>) -> Seq<
    Seq<char>,
>
    decreases items.len(),
{
    if items.len() == 0 {
        seq![]
    } else {
        let before = target_names(p, targets, items.drop_last());
        match p.items[items.last()].kind {
            ItemKind::Callable(decl) if targets.contains(items.last()) => before.push(
                decl.name.name@,
            ),
            _ => before,
        }
    }
}

fn note_closure_items(package: &Package, decl: &CallableDecl, targets: &mut Vec<usize>)
    requires
        package@.callable_ok(*decl),
    ensures
        final(targets)@ == old(targets)@ + closure_items(
            package@,
            package@.callable_walk(decl.implementation),
        ),
{
    let ghost p = package@;
    proof {
        lemma_walk_all_ok(p, body_nodes(decl.implementation), p.node_depth());
    }
    let nodes = callable_nodes(package, decl);
    let mut i: usize = 0;
    while i < nodes.len()
        invariant
            i <= nodes@.len(),
            p == package@,
            forall|j: int|
                0 <= j < nodes@.len() ==> p.node_ok(#[trigger] nodes@[j], p.node_depth()),
            targets@ == old(targets)@ + closure_items(p, nodes@.take(i as int)),
        decreases nodes@.len() - i,
    {
        assert(nodes@.take(i + 1).drop_last() =~= nodes@.take(i as int));
        if let Node::Expr(expr_id) = nodes[i] {
            if let ExprKind::Closure(_, item) = &package.get_expr(expr_id).kind {
                targets.push(item.0);
                assert(targets@ =~= old(targets)@ + closure_items(p, nodes@.take(i + 1)));
            }
        }
        i = i + 1;
    }
    assert(nodes@.take(i as int) =~= nodes@);
}

fn is_listed(items: &Vec<usize>, item: usize) -> (r: bool)
    ensures
        r == items@.contains(item),
{
    let mut i: usize = 0;
    while i < items.len()
        invariant
            i <= items@.len(),
            forall|j: int| 0 <= j < i ==> items@[j] != item,
        decreases items@.len() - i,
    {
        if items[i] == item {
            return true;
        }
        i = i + 1;
    }
    false
}

/// The names of the callables behind the closures in the callables of the package that its entry
/// expression reaches, sorted.
pub fn closure_target_names(store: &PackageStore, package_id: PackageId) -> (r: Vec<String>)
    requires
        reach_ok(store@, package_id, Seq::empty()),
    ensures
        ({
            let p = store@[package_id.0];
            let items = keys_in_order(p.items.dom());
            let reachable = reachable_set(store@, package_id, Seq::empty());
            texts(r@) == sorted(
                target_names(p, closure_targets(p, package_id, reachable, items), items),
            )
        }),
{
    let reachable = collect_reachable_from_entry(store, package_id);
    let package = store.get(package_id);
    let items = package.items.keys();
    let ghost p = package@;
    proof {
        lemma_keys_below(p.items.dom(), usize::MAX as nat + 1);
    }
    let mut targets: Vec<usize> = Vec::new();
    let mut i: usize = 0;
    while i < items.len()
        invariant
            i <= items@.len(),
            reach_ok(store@, package_id, Seq::empty()),
            p == package@,
            p == store@[package_id.0],
            reachable@ == reachable_set(store@, package_id, Seq::empty()),
            forall|k: usize| #[trigger] items@.contains(k) ==> p.items.contains_key(k),
            targets@ == closure_targets(p, package_id, reachable@, items@.take(i as int)),
        decreases items@.len() - i,
    {
        assert(items@.take(i + 1).drop_last() =~= items@.take(i as int));
        assert(items@.contains(items@[i as int]));
        let id = LocalItemId(items[i]);
        if reachable.contains(&StoreItemId { package: package_id, item: id }) {
            assert(item_ok(store@, StoreItemId { package: package_id, item: id }));
            if let ItemKind::Callable(decl) = &package.get_item(id).kind {
                note_closure_items(package, decl, &mut targets);
            }
        }
        i = i + 1;
    }
    assert(items@.take(i as int) =~= items@);
    let mut names: Vec<String> = Vec::new();
    let mut j: usize = 0;
    while j < items.len()
        invariant
            j <= items@.len(),
            p == package@,
            forall|k: usize| #[trigger] items@.contains(k) ==> p.items.contains_key(k),
            texts(names@) == target_names(p, targets@, items@.take(j as int)),
        decreases items@.len() - j,
    {
        assert(items@.take(j + 1).drop_last() =~= items@.take(j as int));
        assert(items@.contains(items@[j as int]));
        if is_listed(&targets, items[j]) {
            if let ItemKind::Callable(decl) = &package.get_item(LocalItemId(items[j])).kind {
                let ghost before = names@;
                names.push(decl.name.name.clone());
                assert(texts(names@) =~= texts(before).push(decl.name.name@));
            }
        }
        j = j + 1;
    }
    assert(items@.take(j as int) =~= items@);
    sort_texts(&names)
}

} // verus!
