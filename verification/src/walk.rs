//! Walking the nodes of a package, and what it means for a node to be whole.

use vstd::prelude::*;

use crate::fir::{
    BlockId, CallableDecl, CallableImpl, Expr, ExprId, ExprKind, ExprKindV, Field, FieldAssign,
    Package, PackageV, Pat, PatId, PatKind, Stmt, StmtId, StmtKind, StringComponent,
};

verus! {

/// A block, an expression or a statement of a package.
#[derive(Clone, Copy, Debug, PartialEq, Eq, Structural)]
pub enum Node {
    Block(BlockId),
    Expr(ExprId),
    Stmt(StmtId),
}

/// The given expressions as nodes.
pub open spec fn expr_nodes(exprs: Seq<ExprId>) -> Seq<Node> {
    exprs.map_values(|e: ExprId| Node::Expr(e))
}

/// The given statements as nodes.
pub open spec fn stmt_nodes(stmts: Seq<StmtId>) -> Seq<Node> {
    stmts.map_values(|s: StmtId| Node::Stmt(s))
}

/// An optional expression as nodes.
pub open spec fn optional_node(expr: Option<ExprId>) -> Seq<Node> {
    match expr {
        Some(e) => seq![Node::Expr(e)],
        None => seq![],
    }
}

/// The expressions interpolated into a string.
pub open spec fn string_nodes(parts: Seq<StringComponent>) -> Seq<Node>
    decreases parts.len(),
{
    if parts.len() == 0 {
        seq![]
    } else {
        match parts.last() {
            StringComponent::Expr(e) => string_nodes(parts.drop_last()).push(Node::Expr(e)),
            StringComponent::Lit(_) => string_nodes(parts.drop_last()),
        }
    }
}

/// The values given to the fields of a structure.
pub open spec fn field_nodes(fields: Seq<FieldAssign>) -> Seq<Node> {
    fields.map_values(|f: FieldAssign| Node::Expr(f.value))
}

/// The nodes directly inside an expression, in source order.
pub open spec fn kind_parts(kind: ExprKind) -> Seq<Node> {
    match kind {
        ExprKind::Array(es) => expr_nodes(es@),
        ExprKind::ArrayLit(es) => expr_nodes(es@),
        ExprKind::ArrayRepeat(a, b) => seq![Node::Expr(a), Node::Expr(b)],
        ExprKind::Assign(a, b) => seq![Node::Expr(a), Node::Expr(b)],
        ExprKind::AssignField(a, _, b) => seq![Node::Expr(a), Node::Expr(b)],
        ExprKind::AssignIndex(a, b, c) => seq![Node::Expr(a), Node::Expr(b), Node::Expr(c)],
        ExprKind::AssignOp(_, a, b) => seq![Node::Expr(a), Node::Expr(b)],
        ExprKind::BinOp(_, a, b) => seq![Node::Expr(a), Node::Expr(b)],
        ExprKind::Block(b) => seq![Node::Block(b)],
        ExprKind::Call(a, b) => seq![Node::Expr(a), Node::Expr(b)],
        ExprKind::Closure(_, _) => seq![],
        ExprKind::Fail(a) => seq![Node::Expr(a)],
        ExprKind::Field(a, _) => seq![Node::Expr(a)],
        ExprKind::Hole => seq![],
        ExprKind::If(a, b, c) => seq![Node::Expr(a), Node::Expr(b)] + optional_node(c),
        ExprKind::Index(a, b) => seq![Node::Expr(a), Node::Expr(b)],
        ExprKind::Lit(_) => seq![],
        ExprKind::Range(a, b, c) => optional_node(a) + optional_node(b) + optional_node(c),
        ExprKind::Return(a) => seq![Node::Expr(a)],
        ExprKind::String(parts) => string_nodes(parts@),
        ExprKind::Struct(_, copy, fields) => optional_node(copy) + field_nodes(fields@),
        ExprKind::Tuple(es) => expr_nodes(es@),
        ExprKind::UnOp(_, a) => seq![Node::Expr(a)],
        ExprKind::UpdateField(a, _, b) => seq![Node::Expr(a), Node::Expr(b)],
        ExprKind::UpdateIndex(a, b, c) => seq![Node::Expr(a), Node::Expr(b), Node::Expr(c)],
        ExprKind::Var(_, _) => seq![],
        ExprKind::While(a, b) => seq![Node::Expr(a), Node::Block(b)],
    }
}

/// The nodes directly inside an expression, over its view.
pub open spec fn expr_parts(kind: ExprKindV) -> Seq<Node> {
    match kind {
        ExprKindV::Var(_, _) => seq![],
        ExprKindV::Field(base, _) => seq![Node::Expr(base)],
        ExprKindV::Other(kind) => kind_parts(kind),
    }
}

/// The nodes directly inside a statement.
pub open spec fn stmt_parts(kind: StmtKind) -> Seq<Node> {
    match kind {
        StmtKind::Expr(e) => seq![Node::Expr(e)],
        StmtKind::Item(_) => seq![],
        StmtKind::Local(_, _, e) => seq![Node::Expr(e)],
        StmtKind::Semi(e) => seq![Node::Expr(e)],
    }
}

/// Whether every part of a pattern exists, with nesting of at most `depth` levels.
pub open spec fn pat_ok(pats: Map<usize, Pat>, id: PatId, depth: nat) -> bool
    decreases depth,
{
    &&& depth > 0
    &&& pats.contains_key(id.0)
    &&& match pats[id.0].kind {
        PatKind::Tuple(subs) => forall|i: int|
            0 <= i < subs@.len() ==> pat_ok(pats, #[trigger] subs@[i], (depth - 1) as nat),
        _ => true,
    }
}

/// The specializations of a callable that are walked, in order. An intrinsic has none, and the
/// block of a simulatable intrinsic only serves simulation.
pub open spec fn body_nodes(implementation: CallableImpl) -> Seq<Node> {
    match implementation {
        CallableImpl::Intrinsic => seq![],
        CallableImpl::SimulatableIntrinsic(_) => seq![],
        CallableImpl::Spec(specs) => seq![Node::Block(specs.body.block)] + (match specs.adj {
            Some(spec) => seq![Node::Block(spec.block)],
            None => seq![],
        }) + (match specs.ctl {
            Some(spec) => seq![Node::Block(spec.block)],
            None => seq![],
        }) + (match specs.ctl_adj {
            Some(spec) => seq![Node::Block(spec.block)],
            None => seq![],
        }),
    }
}

impl PackageV {
    /// How many patterns there are: no pattern nests deeper.
    pub open spec fn pat_depth(self) -> nat {
        self.pats.dom().len()
    }

    /// How many blocks, expressions and statements there are: no node nests deeper.
    pub open spec fn node_depth(self) -> nat {
        self.blocks.dom().len() + self.exprs.dom().len() + self.stmts.dom().len()
    }

    /// Whether the package has this node.
    pub open spec fn has(self, node: Node) -> bool {
        match node {
            Node::Block(b) => self.blocks.contains_key(b.0),
            Node::Expr(e) => self.exprs.contains_key(e.0),
            Node::Stmt(s) => self.stmts.contains_key(s.0),
        }
    }

    /// The nodes directly inside a node, in source order.
    pub open spec fn parts(self, node: Node) -> Seq<Node> {
        match node {
            Node::Block(b) => stmt_nodes(self.blocks[b.0].stmts),
            Node::Expr(e) => expr_parts(self.exprs[e.0].kind),
            Node::Stmt(s) => stmt_parts(self.stmts[s.0].kind),
        }
    }

    /// Whether the pattern that a node binds, if it binds one, is whole.
    pub open spec fn binds_ok(self, node: Node) -> bool {
        node matches Node::Stmt(s) ==> (self.stmts[s.0].kind matches StmtKind::Local(_, pat, _)
            ==> pat_ok(self.pats, pat, self.pat_depth()))
    }

    /// Whether everything inside a node exists, with nesting of at most `depth` levels.
    pub open spec fn node_ok(self, node: Node, depth: nat) -> bool
        decreases depth,
    {
        &&& depth > 0
        &&& self.has(node)
        &&& self.binds_ok(node)
        &&& forall|i: int|
            0 <= i < self.parts(node).len() ==> self.node_ok(
                #[trigger] self.parts(node)[i],
                (depth - 1) as nat,
            )
    }

    /// The node and everything inside it, each node before what is inside it.
    pub open spec fn walk(self, node: Node, depth: nat) -> Seq<Node>
        decreases depth, 0nat,
    {
        if depth == 0 {
            seq![]
        } else {
            seq![node] + self.walk_all(self.parts(node), (depth - 1) as nat)
        }
    }

    /// The walks of several nodes, one after the other.
    pub open spec fn walk_all(self, nodes: Seq<Node>, depth: nat) -> Seq<Node>
        decreases depth, nodes.len(),
    {
        if nodes.len() == 0 {
            seq![]
        } else {
            self.walk_all(nodes.drop_last(), depth) + self.walk(nodes.last(), depth)
        }
    }

    /// Whether a callable is whole: everything that it is made of exists, and no node or pattern
    /// is inside itself.
    pub open spec fn callable_ok(self, decl: CallableDecl) -> bool {
        &&& pat_ok(self.pats, decl.input, self.pat_depth())
        &&& forall|i: int|
            0 <= i < body_nodes(decl.implementation).len() ==> self.node_ok(
                #[trigger] body_nodes(decl.implementation)[i],
                self.node_depth(),
            )
    }

    /// Whether the entry expression, if there is one, is whole.
    pub open spec fn entry_ok(self) -> bool {
        self.entry matches Some(e) ==> self.node_ok(Node::Expr(e), self.node_depth())
    }

    /// Every node in the specializations of a callable, in walking order.
    pub open spec fn callable_walk(self, implementation: CallableImpl) -> Seq<Node> {
        self.walk_all(body_nodes(implementation), self.node_depth())
    }
}

/// A whole pattern stays whole under a larger bound on its nesting.
pub proof fn lemma_pat_ok_deeper(pats: Map<usize, Pat>, id: PatId, d1: nat, d2: nat)
    requires
        pat_ok(pats, id, d1),
        d1 <= d2,
    ensures
        pat_ok(pats, id, d2),
    decreases d1,
{
    if let PatKind::Tuple(subs) = pats[id.0].kind {
        assert forall|i: int| 0 <= i < subs@.len() implies pat_ok(
            pats,
            #[trigger] subs@[i],
            (d2 - 1) as nat,
        ) by {
            lemma_pat_ok_deeper(pats, subs@[i], (d1 - 1) as nat, (d2 - 1) as nat);
        }
    }
}

/// A whole node stays whole under a larger bound on its nesting.
pub proof fn lemma_node_ok_deeper(p: PackageV, node: Node, d1: nat, d2: nat)
    requires
        p.node_ok(node, d1),
        d1 <= d2,
    ensures
        p.node_ok(node, d2),
    decreases d1,
{
    assert forall|i: int| 0 <= i < p.parts(node).len() implies p.node_ok(
        #[trigger] p.parts(node)[i],
        (d2 - 1) as nat,
    ) by {
        lemma_node_ok_deeper(p, p.parts(node)[i], (d1 - 1) as nat, (d2 - 1) as nat);
    }
}

/// The walk of a whole node does not depend on the bound on its nesting.
pub proof fn lemma_walk_deeper(p: PackageV, node: Node, d1: nat, d2: nat)
    requires
        p.node_ok(node, d1),
        d1 <= d2,
    ensures
        p.walk(node, d1) == p.walk(node, d2),
    decreases d1, 0nat,
{
    lemma_walk_all_deeper(p, p.parts(node), (d1 - 1) as nat, (d2 - 1) as nat);
}

/// The walks of whole nodes do not depend on the bound on their nesting.
pub proof fn lemma_walk_all_deeper(p: PackageV, nodes: Seq<Node>, d1: nat, d2: nat)
    requires
        forall|i: int| 0 <= i < nodes.len() ==> p.node_ok(#[trigger] nodes[i], d1),
        d1 <= d2,
    ensures
        p.walk_all(nodes, d1) == p.walk_all(nodes, d2),
    decreases d1, nodes.len(),
{
    if nodes.len() > 0 {
        lemma_walk_all_deeper(p, nodes.drop_last(), d1, d2);
        lemma_walk_deeper(p, nodes.last(), d1, d2);
    }
}

/// Every node in a walk is whole.
pub proof fn lemma_walk_ok(p: PackageV, node: Node, depth: nat)
    requires
        p.node_ok(node, depth),
    ensures
        forall|i: int|
            0 <= i < p.walk(node, depth).len() ==> p.node_ok(
                #[trigger] p.walk(node, depth)[i],
                depth,
            ),
    decreases depth, 0nat,
{
    let rest = p.walk_all(p.parts(node), (depth - 1) as nat);
    lemma_walk_all_ok(p, p.parts(node), (depth - 1) as nat);
    assert forall|i: int| 0 <= i < p.walk(node, depth).len() implies p.node_ok(
        #[trigger] p.walk(node, depth)[i],
        depth,
    ) by {
        if i > 0 {
            assert(p.walk(node, depth)[i] == rest[i - 1]);
            lemma_node_ok_deeper(p, rest[i - 1], (depth - 1) as nat, depth);
        }
    }
}

/// Every node in the walks of whole nodes is whole.
pub proof fn lemma_walk_all_ok(p: PackageV, nodes: Seq<Node>, depth: nat)
    requires
        forall|i: int| 0 <= i < nodes.len() ==> p.node_ok(#[trigger] nodes[i], depth),
    ensures
        forall|i: int|
            0 <= i < p.walk_all(nodes, depth).len() ==> p.node_ok(
                #[trigger] p.walk_all(nodes, depth)[i],
                depth,
            ),
    decreases depth, nodes.len(),
{
    if nodes.len() > 0 {
        let first = p.walk_all(nodes.drop_last(), depth);
        let last = p.walk(nodes.last(), depth);
        lemma_walk_all_ok(p, nodes.drop_last(), depth);
        lemma_walk_ok(p, nodes.last(), depth);
        assert forall|i: int| 0 <= i < p.walk_all(nodes, depth).len() implies p.node_ok(
            #[trigger] p.walk_all(nodes, depth)[i],
            depth,
        ) by {
            if i < first.len() {
                assert(p.walk_all(nodes, depth)[i] == first[i]);
            } else {
                assert(p.walk_all(nodes, depth)[i] == last[i - first.len()]);
            }
        }
    }
}

fn push_exprs(out: &mut Vec<Node>, exprs: &Vec<ExprId>)
    ensures
        final(out)@ == old(out)@ + expr_nodes(exprs@),
{
    let mut i: usize = 0;
    while i < exprs.len()
        invariant
            i <= exprs@.len(),
            out@ == old(out)@ + expr_nodes(exprs@.take(i as int)),
        decreases exprs@.len() - i,
    {
        out.push(Node::Expr(exprs[i]));
        assert(expr_nodes(exprs@.take(i + 1)) =~= expr_nodes(exprs@.take(i as int)).push(
            Node::Expr(exprs@[i as int]),
        ));
        i = i + 1;
    }
    assert(exprs@.take(i as int) =~= exprs@);
}

fn push_optional(out: &mut Vec<Node>, expr: Option<ExprId>)
    ensures
        final(out)@ == old(out)@ + optional_node(expr),
{
    if let Some(e) = expr {
        out.push(Node::Expr(e));
    }
}

fn push_string(out: &mut Vec<Node>, parts: &Vec<StringComponent>)
    ensures
        final(out)@ == old(out)@ + string_nodes(parts@),
{
    let mut i: usize = 0;
    while i < parts.len()
        invariant
            i <= parts@.len(),
            out@ == old(out)@ + string_nodes(parts@.take(i as int)),
        decreases parts@.len() - i,
    {
        assert(parts@.take(i + 1).drop_last() =~= parts@.take(i as int));
        if let StringComponent::Expr(e) = &parts[i] {
            out.push(Node::Expr(*e));
        }
        i = i + 1;
    }
    assert(parts@.take(i as int) =~= parts@);
}

fn push_fields(out: &mut Vec<Node>, fields: &Vec<FieldAssign>)
    ensures
        final(out)@ == old(out)@ + field_nodes(fields@),
{
    let mut i: usize = 0;
    while i < fields.len()
        invariant
            i <= fields@.len(),
            out@ == old(out)@ + field_nodes(fields@.take(i as int)),
        decreases fields@.len() - i,
    {
        out.push(Node::Expr(fields[i].value));
        assert(field_nodes(fields@.take(i + 1)) =~= field_nodes(fields@.take(i as int)).push(
            Node::Expr(fields@[i as int].value),
        ));
        i = i + 1;
    }
    assert(fields@.take(i as int) =~= fields@);
}

/// The nodes directly inside an expression, in source order.
pub fn expr_parts_of(expr: &Expr) -> (r: Vec<Node>)
    ensures
        r@ == expr_parts(expr@.kind),
{
    let mut r: Vec<Node> = Vec::new();
    match &expr.kind {
        ExprKind::Array(es) => push_exprs(&mut r, es),
        ExprKind::ArrayLit(es) => push_exprs(&mut r, es),
        ExprKind::ArrayRepeat(a, b) => {
            r.push(Node::Expr(*a));
            r.push(Node::Expr(*b));
        },
        ExprKind::Assign(a, b) => {
            r.push(Node::Expr(*a));
            r.push(Node::Expr(*b));
        },
        ExprKind::AssignField(a, _, b) => {
            r.push(Node::Expr(*a));
            r.push(Node::Expr(*b));
        },
        ExprKind::AssignIndex(a, b, c) => {
            r.push(Node::Expr(*a));
            r.push(Node::Expr(*b));
            r.push(Node::Expr(*c));
        },
        ExprKind::AssignOp(_, a, b) => {
            r.push(Node::Expr(*a));
            r.push(Node::Expr(*b));
        },
        ExprKind::BinOp(_, a, b) => {
            r.push(Node::Expr(*a));
            r.push(Node::Expr(*b));
        },
        ExprKind::Block(b) => r.push(Node::Block(*b)),
        ExprKind::Call(a, b) => {
            r.push(Node::Expr(*a));
            r.push(Node::Expr(*b));
        },
        ExprKind::Closure(_, _) => {},
        ExprKind::Fail(a) => r.push(Node::Expr(*a)),
        ExprKind::Field(a, _) => r.push(Node::Expr(*a)),
        ExprKind::Hole => {},
        ExprKind::If(a, b, c) => {
            r.push(Node::Expr(*a));
            r.push(Node::Expr(*b));
            push_optional(&mut r, *c);
        },
        ExprKind::Index(a, b) => {
            r.push(Node::Expr(*a));
            r.push(Node::Expr(*b));
        },
        ExprKind::Lit(_) => {},
        ExprKind::Range(a, b, c) => {
            push_optional(&mut r, *a);
            push_optional(&mut r, *b);
            push_optional(&mut r, *c);
        },
        ExprKind::Return(a) => r.push(Node::Expr(*a)),
        ExprKind::String(parts) => push_string(&mut r, parts),
        ExprKind::Struct(_, copy, fields) => {
            push_optional(&mut r, *copy);
            push_fields(&mut r, fields);
        },
        ExprKind::Tuple(es) => push_exprs(&mut r, es),
        ExprKind::UnOp(_, a) => r.push(Node::Expr(*a)),
        ExprKind::UpdateField(a, _, b) => {
            r.push(Node::Expr(*a));
            r.push(Node::Expr(*b));
        },
        ExprKind::UpdateIndex(a, b, c) => {
            r.push(Node::Expr(*a));
            r.push(Node::Expr(*b));
            r.push(Node::Expr(*c));
        },
        ExprKind::Var(_, _) => {},
        ExprKind::While(a, b) => {
            r.push(Node::Expr(*a));
            r.push(Node::Block(*b));
        },
    }
    assert(r@ =~= expr_parts(expr@.kind));
    r
}

/// The nodes directly inside a node, in source order.
pub fn parts_of(package: &Package, node: Node) -> (r: Vec<Node>)
    requires
        package@.has(node),
    ensures
        r@ == package@.parts(node),
{
    match node {
        Node::Block(b) => {
            let block = package.get_block(b);
            let mut r: Vec<Node> = Vec::new();
            let mut i: usize = 0;
            while i < block.stmts.len()
                invariant
                    i <= block.stmts@.len(),
                    r@ == stmt_nodes(block.stmts@.take(i as int)),
                decreases block.stmts@.len() - i,
            {
                r.push(Node::Stmt(block.stmts[i]));
                assert(stmt_nodes(block.stmts@.take(i + 1)) =~= stmt_nodes(
                    block.stmts@.take(i as int),
                ).push(Node::Stmt(block.stmts@[i as int])));
                i = i + 1;
            }
            assert(block.stmts@.take(i as int) =~= block.stmts@);
            r
        },
        Node::Expr(e) => expr_parts_of(package.get_expr(e)),
        Node::Stmt(s) => {
            let mut r: Vec<Node> = Vec::new();
            match package.get_stmt(s).kind {
                StmtKind::Expr(e) => r.push(Node::Expr(e)),
                StmtKind::Item(_) => {},
                StmtKind::Local(_, _, e) => r.push(Node::Expr(e)),
                StmtKind::Semi(e) => r.push(Node::Expr(e)),
            }
            assert(r@ =~= package@.parts(node));
            r
        },
    }
}

fn walk_into(package: &Package, node: Node, Ghost(depth): Ghost<nat>, out: &mut Vec<Node>)
    requires
        package@.node_ok(node, depth),
    ensures
        final(out)@ == old(out)@ + package@.walk(node, depth),
    decreases depth,
{
    out.push(node);
    let parts = parts_of(package, node);
    let mut i: usize = 0;
    while i < parts.len()
        invariant
            i <= parts@.len(),
            depth > 0,
            parts@ == package@.parts(node),
            package@.node_ok(node, depth),
            out@ == old(out)@.push(node) + package@.walk_all(
                parts@.take(i as int),
                (depth - 1) as nat,
            ),
        decreases parts@.len() - i,
    {
        assert(parts@.take(i + 1).drop_last() =~= parts@.take(i as int));
        walk_into(package, parts[i], Ghost((depth - 1) as nat), out);
        i = i + 1;
    }
    assert(parts@.take(i as int) =~= parts@);
    assert(out@ =~= old(out)@ + package@.walk(node, depth));
}

/// The walks of several nodes, one after the other.
pub fn walk_nodes(package: &Package, nodes: &Vec<Node>) -> (r: Vec<Node>)
    requires
        forall|i: int|
            0 <= i < nodes@.len() ==> package@.node_ok(
                #[trigger] nodes@[i],
                package@.node_depth(),
            ),
    ensures
        r@ == package@.walk_all(nodes@, package@.node_depth()),
{
    let mut r: Vec<Node> = Vec::new();
    let mut i: usize = 0;
    while i < nodes.len()
        invariant
            i <= nodes@.len(),
            forall|i: int|
                0 <= i < nodes@.len() ==> package@.node_ok(
                    #[trigger] nodes@[i],
                    package@.node_depth(),
                ),
            r@ == package@.walk_all(nodes@.take(i as int), package@.node_depth()),
        decreases nodes@.len() - i,
    {
        assert(nodes@.take(i + 1).drop_last() =~= nodes@.take(i as int));
        walk_into(package, nodes[i], Ghost(package@.node_depth()), &mut r);
        i = i + 1;
    }
    assert(nodes@.take(i as int) =~= nodes@);
    r
}

/// The specializations of a callable that are walked, in order.
pub fn body_nodes_of(implementation: &CallableImpl) -> (r: Vec<Node>)
    ensures
        r@ == body_nodes(*implementation),
{
    let mut r: Vec<Node> = Vec::new();
    if let CallableImpl::Spec(specs) = implementation {
        r.push(Node::Block(specs.body.block));
        if let Some(spec) = specs.adj {
            r.push(Node::Block(spec.block));
        }
        if let Some(spec) = specs.ctl {
            r.push(Node::Block(spec.block));
        }
        if let Some(spec) = specs.ctl_adj {
            r.push(Node::Block(spec.block));
        }
    }
    assert(r@ =~= body_nodes(*implementation));
    r
}

/// Every node in the specializations of a callable, in walking order.
pub fn callable_nodes(package: &Package, decl: &CallableDecl) -> (r: Vec<Node>)
    requires
        package@.callable_ok(*decl),
    ensures
        r@ == package@.callable_walk(decl.implementation),
{
    let nodes = body_nodes_of(&decl.implementation);
    walk_nodes(package, &nodes)
}

} // verus!
