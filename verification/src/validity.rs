//! Testing that the entry expression and the callables of a package are whole.

use vstd::prelude::*;

use crate::fir::{CallableDecl, Package, PatId, PatKind, StmtKind};
use crate::walk::{body_nodes, body_nodes_of, parts_of, pat_ok, Node};

verus! {

fn is_pat_ok(package: &Package, id: PatId, depth: usize) -> (r: bool)
    ensures
        r == pat_ok(package@.pats, id, depth as nat),
    decreases depth,
{
    if depth == 0 || !package.pats.contains_key(id.0) {
        return false;
    }
    if let PatKind::Tuple(subs) = &package.get_pat(id).kind {
        let mut i: usize = 0;
        while i < subs.len()
            invariant
                depth > 0,
                i <= subs@.len(),
                forall|j: int|
                    0 <= j < i ==> pat_ok(
                        package@.pats,
                        #[trigger] subs@[j],
                        (depth - 1) as nat,
                    ),
                package@.pats.contains_key(id.0),
                package@.pats[id.0].kind == PatKind::Tuple(*subs),
            decreases subs@.len() - i,
        {
            if !is_pat_ok(package, subs[i], depth - 1) {
                assert(!pat_ok(
                    package@.pats,
                    package@.pats[id.0].kind->Tuple_0@[i as int],
                    (depth as nat - 1) as nat,
                ));
                return false;
            }
            i = i + 1;
        }
    }
    true
}

fn is_node_ok(package: &Package, node: Node, depth: u128, pat_depth: usize) -> (r: bool)
    requires
        pat_depth == package@.pat_depth(),
    ensures
        r == package@.node_ok(node, depth as nat),
    decreases depth,
{
    if depth == 0 {
        return false;
    }
    let exists: bool = match node {
        Node::Block(b) => package.blocks.contains_key(b.0),
        Node::Expr(e) => package.exprs.contains_key(e.0),
        Node::Stmt(s) => package.stmts.contains_key(s.0),
    };
    if !exists {
        return false;
    }
    if let Node::Stmt(s) = node {
        if let StmtKind::Local(_, pat, _) = package.get_stmt(s).kind {
            if !is_pat_ok(package, pat, pat_depth) {
                return false;
            }
        }
    }
    let parts = parts_of(package, node);
    let mut i: usize = 0;
    while i < parts.len()
        invariant
            depth > 0,
            i <= parts@.len(),
            pat_depth == package@.pat_depth(),
            package@.has(node),
            parts@ == package@.parts(node),
            forall|j: int|
                0 <= j < i ==> package@.node_ok(#[trigger] parts@[j], (depth - 1) as nat),
        decreases parts@.len() - i,
    {
        if !is_node_ok(package, parts[i], depth - 1, pat_depth) {
            assert(!package@.node_ok(package@.parts(node)[i as int], (depth - 1) as nat));
            return false;
        }
        i = i + 1;
    }
    true
}

/// How deep a node of the package may nest.
fn node_depth_of(package: &Package) -> (r: u128)
    ensures
        r == package@.node_depth(),
{
    assert(package@.blocks.dom() =~= package.blocks@.dom());
    assert(package@.exprs.dom() =~= package.exprs@.dom());
    package.blocks.len() as u128 + package.exprs.len() as u128 + package.stmts.len() as u128
}

/// Whether the entry expression of the package, if there is one, is whole.
pub fn is_entry_ok(package: &Package) -> (r: bool)
    ensures
        r == package@.entry_ok(),
{
    match package.entry {
        Some(e) => is_node_ok(
            package,
            Node::Expr(e),
            node_depth_of(package),
            package.pats.len(),
        ),
        None => true,
    }
}

/// Whether a callable of the package is whole: everything that it is made of exists, and no node
/// or pattern is inside itself.
pub fn is_callable_ok(package: &Package, decl: &CallableDecl) -> (r: bool)
    ensures
        r == package@.callable_ok(*decl),
{
    let pat_depth: usize = package.pats.len();
    if !is_pat_ok(package, decl.input, pat_depth) {
        return false;
    }
    let depth: u128 = node_depth_of(package);
    let nodes = body_nodes_of(&decl.implementation);
    let mut i: usize = 0;
    while i < nodes.len()
        invariant
            i <= nodes@.len(),
            depth == package@.node_depth(),
            pat_depth == package@.pat_depth(),
            nodes@ == body_nodes(decl.implementation),
            forall|j: int|
                0 <= j < i ==> package@.node_ok(#[trigger] nodes@[j], package@.node_depth()),
        decreases nodes@.len() - i,
    {
        if !is_node_ok(package, nodes[i], depth, pat_depth) {
            assert(!package@.node_ok(
                body_nodes(decl.implementation)[i as int],
                package@.node_depth(),
            ));
            return false;
        }
        i = i + 1;
    }
    true
}

} // verus!
