use qsc_fir_transforms::fir::{
    Block, BlockId, CallableDecl, CallableImpl, ExecRange, Expr, ExprId, ExprKind, Field,
    FieldPath, Functor, Ident, Item, ItemId, ItemKind, Lit, LocalItemId, LocalVarId, Measured,
    Mutability, Package, PackageId, PackageStore, Pat, PatId, PatKind, Pauli, Prim, Res, Span,
    SpecDecl, Specializations, Stmt, StmtId, StmtKind, Ty, UnOp,
};
use qsc_fir_transforms::probes::{
    callable_body_block_id, callable_input_binding_names, closure_target_names,
    collect_pat_binding_names, expect_block_binds_call_then_returns_expr,
    expect_controlled_payload_block, expect_direct_item_call, expect_projected_tuple_from_local,
    expect_single_expr_block_in_callable, extract_result, find_functor_call_arg,
    find_pat_binding_id_by_name, force_shared_nested_field_inner_expr,
};
use qsc_fir_transforms::reachability::try_collect_reachable;
use qsc_fir_transforms::shapes::{
    assert_call_shape_count, assert_call_shapes_contain, extract_call_shapes,
    extract_field_access_shapes, find_callable, format_call_operand, format_pat, format_ty,
    item_name, local_names,
};
use qsc_fir_transforms::text::{
    append_decimal, append_signed_decimal, count_lines_starting_with, dedup_texts, has_text, join,
    same_text, sort_texts,
};

const USER: PackageId = PackageId(1);
const SPAN: Span = Span { lo: 0, hi: 0 };
const RANGE: ExecRange = ExecRange { start: 0, end: 0 };

fn int_ty() -> Ty {
    Ty::Prim(Prim::Int)
}

fn unit_ty() -> Ty {
    Ty::Tuple(Vec::new())
}

fn pair_ty() -> Ty {
    Ty::Tuple(vec![int_ty(), int_ty()])
}

/// Whether everything that the entry expression reaches is whole.
fn is_whole(store: &PackageStore) -> bool {
    try_collect_reachable(store, USER, &Vec::new()).is_some()
}

struct Program {
    package: Package,
    items: usize,
    exprs: usize,
    stmts: usize,
    blocks: usize,
    pats: usize,
}

impl Program {
    fn new() -> Self {
        Program { package: Package::new(), items: 0, exprs: 0, stmts: 0, blocks: 0, pats: 0 }
    }

    fn expr(&mut self, ty: Ty, kind: ExprKind) -> ExprId {
        let id = ExprId(self.exprs);
        self.exprs += 1;
        self.package
            .exprs
            .insert(id.0, Expr { id, span: SPAN, ty, kind, exec_graph_range: RANGE });
        id
    }

    fn stmt(&mut self, kind: StmtKind) -> StmtId {
        let id = StmtId(self.stmts);
        self.stmts += 1;
        self.package.stmts.insert(id.0, Stmt { id, span: SPAN, kind, exec_graph_range: RANGE });
        id
    }

    fn block(&mut self, ty: Ty, stmts: Vec<StmtId>) -> BlockId {
        let id = BlockId(self.blocks);
        self.blocks += 1;
        self.package.blocks.insert(id.0, Block { id, span: SPAN, ty, stmts });
        id
    }

    fn pat(&mut self, ty: Ty, kind: PatKind) -> PatId {
        let id = PatId(self.pats);
        self.pats += 1;
        self.package.pats.insert(id.0, Pat { id, span: SPAN, ty, kind });
        id
    }

    fn bind(&mut self, name: &str, local: usize, ty: Ty) -> PatId {
        let ident = Ident { id: LocalVarId(local), span: SPAN, name: name.to_string() };
        self.pat(ty, PatKind::Bind(ident))
    }

    fn tuple_pat(&mut self, ty: Ty, subs: Vec<PatId>) -> PatId {
        self.pat(ty, PatKind::Tuple(subs))
    }

    fn callable(
        &mut self,
        name: &str,
        input: PatId,
        implementation: CallableImpl,
    ) -> LocalItemId {
        let id = LocalItemId(self.items);
        self.items += 1;
        let decl = CallableDecl {
            name: Ident { id: LocalVarId(0), span: SPAN, name: name.to_string() },
            input,
            output: int_ty(),
            implementation,
        };
        let kind = ItemKind::Callable(Box::new(decl));
        self.package.items.insert(id.0, Item { id, span: SPAN, kind });
        id
    }

    fn function(&mut self, name: &str, input: PatId, block: BlockId) -> LocalItemId {
        self.callable(
            name,
            input,
            CallableImpl::Spec(Specializations {
                body: SpecDecl { block, input: None },
                adj: None,
                ctl: None,
                ctl_adj: None,
            }),
        )
    }

    /// A callable without input and with an empty body.
    fn empty(&mut self, name: &str) -> LocalItemId {
        let input = self.tuple_pat(unit_ty(), Vec::new());
        let block = self.block(unit_ty(), Vec::new());
        self.function(name, input, block)
    }

    /// A callable without input whose body is the statements.
    fn body(&mut self, name: &str, stmts: Vec<StmtId>) -> LocalItemId {
        let input = self.tuple_pat(unit_ty(), Vec::new());
        let block = self.block(unit_ty(), stmts);
        self.function(name, input, block)
    }

    fn int_lit(&mut self, n: i64) -> ExprId {
        self.expr(int_ty(), ExprKind::Lit(Lit::Int(n)))
    }

    fn local(&mut self, local: usize, ty: Ty) -> ExprId {
        self.expr(ty, ExprKind::Var(Res::Local(LocalVarId(local)), Vec::new()))
    }

    fn tuple(&mut self, items: Vec<ExprId>) -> ExprId {
        self.expr(unit_ty(), ExprKind::Tuple(items))
    }

    fn field(&mut self, local: usize, indices: Vec<usize>) -> ExprId {
        let record = self.local(local, pair_ty());
        self.expr(int_ty(), ExprKind::Field(record, Field::Path(FieldPath { indices })))
    }

    fn item(&mut self, item: LocalItemId) -> ExprId {
        let id = ItemId { package: USER, item };
        self.expr(unit_ty(), ExprKind::Var(Res::Item(id), Vec::new()))
    }

    fn call(&mut self, item: LocalItemId, arg: ExprId) -> ExprId {
        let callee = self.item(item);
        self.expr(int_ty(), ExprKind::Call(callee, arg))
    }

    fn functor_call(&mut self, functor: Functor, item: LocalItemId, arg: ExprId) -> ExprId {
        let inner = self.item(item);
        let callee = self.expr(unit_ty(), ExprKind::UnOp(UnOp::Functor(functor), inner));
        self.expr(unit_ty(), ExprKind::Call(callee, arg))
    }

    fn expr_stmt(&mut self, e: ExprId) -> StmtId {
        self.stmt(StmtKind::Expr(e))
    }

    fn let_stmt(&mut self, pat: PatId, init: ExprId) -> StmtId {
        self.stmt(StmtKind::Local(Mutability::Immutable, pat, init))
    }

    fn finish(mut self, main: LocalItemId) -> PackageStore {
        let arg = self.tuple(Vec::new());
        let entry = self.call(main, arg);
        self.package.entry = Some(entry);
        let mut store = PackageStore::new();
        store.insert(USER, self.package);
        assert!(is_whole(&store));
        store
    }
}

fn strings(parts: &[&str]) -> Vec<String> {
    parts.iter().map(|part| part.to_string()).collect()
}

/// A program that binds `x` and `y` and calls `Foo` three times.
fn three_calls() -> PackageStore {
    let mut p = Program::new();
    let foo = p.empty("Foo");
    let x = p.bind("x", 1, pair_ty());
    let y = p.bind("y", 2, pair_ty());
    let mut stmts = Vec::new();
    for (pat, n) in [(x, 1), (y, 4)] {
        let init = p.int_lit(n);
        stmts.push(p.let_stmt(pat, init));
    }
    for local in [1, 2] {
        let args: Vec<ExprId> = [vec![0], vec![1, 0], vec![1, 1]]
            .into_iter()
            .map(|path| p.field(local, path))
            .collect();
        let arg = p.tuple(args);
        let call = p.call(foo, arg);
        stmts.push(p.stmt(StmtKind::Semi(call)));
    }
    let args: Vec<ExprId> = [7, 8, 9].into_iter().map(|n| p.int_lit(n)).collect();
    let arg = p.tuple(args);
    let call = p.call(foo, arg);
    stmts.push(p.expr_stmt(call));
    let main = p.body("Main", stmts);
    p.finish(main)
}

#[test]
fn call_shapes_spell_out_projections_and_literals() {
    let store = three_calls();
    assert_eq!(
        extract_call_shapes(&store, USER, "Main"),
        "Foo((x.0, x.1.0, x.1.1))\nFoo((y.0, y.1.0, y.1.1))\nFoo((Int(7), Int(8), Int(9)))"
    );
    assert_eq!(extract_call_shapes(&store, USER, "Foo"), "");
}

#[test]
fn call_shapes_are_counted_by_their_start() {
    let store = three_calls();
    assert!(assert_call_shape_count(&store, USER, "Main", "Foo(", 3));
    assert!(!assert_call_shape_count(&store, USER, "Main", "Foo(", 2));
    assert!(assert_call_shape_count(&store, USER, "Main", "Foo((x", 1));
    assert!(assert_call_shape_count(&store, USER, "Main", "Bar(", 0));
    assert!(assert_call_shape_count(&store, USER, "Foo", "", 0));
}

#[test]
fn call_shapes_are_searched() {
    let store = three_calls();
    assert!(assert_call_shapes_contain(&store, USER, "Main", "Foo((y.0, y.1.0, y.1.1))"));
    assert!(assert_call_shapes_contain(&store, USER, "Main", ""));
    assert!(!assert_call_shapes_contain(&store, USER, "Main", "Foo((z"));
}

#[test]
fn field_accesses_come_sorted_and_once() {
    let mut p = Program::new();
    let x = p.bind("x", 1, pair_ty());
    let init = p.int_lit(1);
    let mut stmts = vec![p.let_stmt(x, init)];
    for path in [vec![1], vec![0, 2], vec![1], vec![0]] {
        let access = p.field(1, path);
        stmts.push(p.stmt(StmtKind::Semi(access)));
    }
    let main = p.body("Main", stmts);
    let store = p.finish(main);
    assert_eq!(extract_field_access_shapes(&store, USER, "Main"), "x.0\nx.0.2\nx.1");
}

#[test]
fn functors_and_other_operands_are_rendered() {
    let mut p = Program::new();
    let op = p.empty("Op");
    let pair = p.bind("pair", 1, pair_ty());
    let init = p.int_lit(1);
    let let_pair = p.let_stmt(pair, init);
    let (first, second) = (p.field(1, vec![0]), p.field(1, vec![1]));
    let payload = p.tuple(vec![first, second]);
    let adjoint = p.functor_call(Functor::Adj, op, payload);
    let adjoint = p.stmt(StmtKind::Semi(adjoint));
    let q = p.local(9, Ty::Prim(Prim::Qubit));
    let controls = p.expr(unit_ty(), ExprKind::Array(vec![q]));
    let (first, second) = (p.field(1, vec![0]), p.field(1, vec![1]));
    let payload = p.tuple(vec![first, second]);
    let arg = p.tuple(vec![controls, payload]);
    let controlled = p.functor_call(Functor::Ctl, op, arg);
    let controlled = p.stmt(StmtKind::Semi(controlled));
    // A variable without a name, and an item that is none of this package.
    let unnamed = p.local(5, int_ty());
    let elsewhere = p.call(LocalItemId(30), unnamed);
    let elsewhere = p.stmt(StmtKind::Semi(elsewhere));
    let main = p.body("Main", vec![let_pair, adjoint, controlled, elsewhere]);
    let store = p.finish(main);
    assert_eq!(
        extract_call_shapes(&store, USER, "Main"),
        "Functor(Adj)(Op)((pair.0, pair.1))\n\
         Functor(Ctl)(Op)((Array(len=1), (pair.0, pair.1)))\n\
         ItemId { package: PackageId(1), item: LocalItemId(30) }(LocalVarId(5))"
    );
    let package = store.get(USER);
    assert!(find_functor_call_arg(package, "Main", Functor::Adj, "Op").is_some());
    assert!(find_functor_call_arg(package, "Main", Functor::Adj, "Main").is_none());
    assert!(find_functor_call_arg(package, "Op", Functor::Adj, "Op").is_none());
    // The payload is a tuple, not a block.
    assert_eq!(expect_controlled_payload_block(package, "Main", "Op"), None);
}

#[test]
fn literals_are_rendered_with_their_kind() {
    let cases = [
        (Lit::Int(-12), "Int(-12)"),
        (Lit::Int(i64::MIN), "Int(-9223372036854775808)"),
        (Lit::Int(i64::MAX), "Int(9223372036854775807)"),
        (Lit::Bool(true), "Bool(true)"),
        (Lit::Bool(false), "Bool(false)"),
        (Lit::BigInt("5".to_string()), "BigInt(5)"),
        (Lit::Double("1.5".to_string()), "Double(1.5)"),
        (Lit::Imaginary("2.0".to_string()), "Imaginary(2.0)"),
        (Lit::Pauli(Pauli::I), "Pauli(I)"),
        (Lit::Pauli(Pauli::X), "Pauli(X)"),
        (Lit::Pauli(Pauli::Y), "Pauli(Y)"),
        (Lit::Pauli(Pauli::Z), "Pauli(Z)"),
        (Lit::Result(Measured::Zero), "Result(Zero)"),
        (Lit::Result(Measured::One), "Result(One)"),
    ];
    for (lit, expected) in cases {
        let mut p = Program::new();
        let e = p.expr(int_ty(), ExprKind::Lit(lit));
        let stmt = p.expr_stmt(e);
        let main = p.body("Main", vec![stmt]);
        let store = p.finish(main);
        let package = store.get(USER);
        assert_eq!(format_call_operand(package, &local_names(package), e), expected);
    }
}

#[test]
fn other_expressions_are_rendered_by_their_kind() {
    let mut p = Program::new();
    let a = p.int_lit(1);
    let block = p.block(unit_ty(), Vec::new());
    let cases = [
        (ExprKind::ArrayLit(vec![a, a]), "ArrayLit(len=2)"),
        (ExprKind::Block(block), "Block"),
        (ExprKind::Hole, "Hole"),
        (ExprKind::Index(a, a), "Index"),
        (ExprKind::Return(a), "Return"),
        (ExprKind::Field(a, Field::Invalid), "Field"),
        (ExprKind::Var(Res::Invalid, Vec::new()), "Var"),
        (ExprKind::UnOp(UnOp::Neg, a), "Neg(Int(1))"),
        (ExprKind::UnOp(UnOp::Unwrap, a), "Unwrap(Int(1))"),
        (ExprKind::Tuple(Vec::new()), "()"),
    ];
    let mut expected = Vec::new();
    let mut stmts = Vec::new();
    for (kind, text) in cases {
        let e = p.expr(unit_ty(), kind);
        expected.push((e, text));
        stmts.push(p.stmt(StmtKind::Semi(e)));
    }
    let main = p.body("Main", stmts);
    let store = p.finish(main);
    let package = store.get(USER);
    for (e, text) in expected {
        assert_eq!(format_call_operand(package, &local_names(package), e), text);
    }
}

#[test]
fn types_are_rendered_as_source_text() {
    let cases = [
        (int_ty(), "Int"),
        (unit_ty(), "Unit"),
        (Ty::Tuple(vec![int_ty()]), "(Int,)"),
        (pair_ty(), "(Int, Int)"),
        (Ty::Tuple(vec![int_ty(), pair_ty()]), "(Int, (Int, Int))"),
        (Ty::Array(Box::new(Ty::Prim(Prim::Qubit))), "Qubit[]"),
        (Ty::Named("(Int -> Int)".to_string()), "(Int -> Int)"),
        (Ty::Prim(Prim::RangeFull), "RangeFull"),
    ];
    for (ty, expected) in cases {
        assert_eq!(format_ty(&ty), expected);
        assert_eq!(format_ty(&ty.clone()), expected);
    }
}

#[test]
fn patterns_are_rendered_with_names_and_types() {
    let mut p = Program::new();
    let (a, b) = (p.bind("p_0", 1, int_ty()), p.bind("p_1", 2, int_ty()));
    let both = p.tuple_pat(pair_ty(), vec![a, b]);
    let discard = p.pat(int_ty(), PatKind::Discard);
    let nested = p.tuple_pat(Ty::Tuple(vec![pair_ty(), int_ty()]), vec![both, discard]);
    let main = p.empty("Main");
    let store = p.finish(main);
    let package = store.get(USER);
    assert_eq!(format_pat(package, both), "Tuple(Bind(p_0: Int), Bind(p_1: Int))");
    assert_eq!(format_pat(package, discard), "Discard(Int)");
    assert_eq!(
        format_pat(package, nested),
        "Tuple(Tuple(Bind(p_0: Int), Bind(p_1: Int)), Discard(Int))"
    );
    assert_eq!(find_pat_binding_id_by_name(package, nested, "p_1"), Some(LocalVarId(2)));
    assert_eq!(find_pat_binding_id_by_name(package, nested, "p_2"), None);
    let mut names = strings(&["before"]);
    collect_pat_binding_names(package, nested, &mut names);
    assert_eq!(names, strings(&["before", "p_0", "p_1"]));
}

#[test]
fn the_first_binding_of_a_name_is_found() {
    let mut p = Program::new();
    let (a, b) = (p.bind("x", 7, int_ty()), p.bind("x", 8, int_ty()));
    let both = p.tuple_pat(pair_ty(), vec![a, b]);
    let main = p.empty("Main");
    let store = p.finish(main);
    assert_eq!(
        find_pat_binding_id_by_name(store.get(USER), both, "x"),
        Some(LocalVarId(7))
    );
}

#[test]
fn the_result_lists_reachable_callables_with_their_bindings() {
    let mut p = Program::new();
    let (p_0, p_1) = (p.bind("p_0", 1, int_ty()), p.bind("p_1", 2, int_ty()));
    let input = p.tuple_pat(pair_ty(), vec![p_0, p_1]);
    let block = p.block(int_ty(), Vec::new());
    let foo = p.function("Foo", input, block);
    p.empty("Dead");
    let s = p.bind("s", 3, pair_ty());
    let init = p.int_lit(10);
    let let_s = p.let_stmt(s, init);
    let m = p.bind("m", 4, int_ty());
    let init = p.int_lit(11);
    let let_m = p.stmt(StmtKind::Local(Mutability::Mutable, m, init));
    let arg = p.local(3, pair_ty());
    let call = p.call(foo, arg);
    let last = p.expr_stmt(call);
    let main = p.body("Main", vec![let_s, let_m, last]);
    let store = p.finish(main);
    assert_eq!(
        extract_result(&store, USER),
        "Callable Foo: input=Tuple(Bind(p_0: Int), Bind(p_1: Int))\n\
         Callable Main: input=Tuple()\n  local: Bind(s: (Int, Int))\n  local: mutable Bind(m: Int)"
    );
    assert_eq!(callable_input_binding_names(store.get(USER), "Foo"), strings(&["p_0", "p_1"]));
}

#[test]
fn an_aggregate_argument_is_bound_once_and_projected() {
    // { let t = BuildPair(); Sum((t.0, t.1)) }
    let mut p = Program::new();
    let build = p.empty("BuildPair");
    let sum = p.empty("Sum");
    let t = p.bind("t", 1, pair_ty());
    let nothing = p.tuple(Vec::new());
    let init = p.call(build, nothing);
    let let_t = p.let_stmt(t, init);
    let (first, second) = (p.field(1, vec![0]), p.field(1, vec![1]));
    let arg = p.tuple(vec![first, second]);
    let call = p.call(sum, arg);
    let result = p.expr_stmt(call);
    let inner = p.block(int_ty(), vec![let_t, result]);
    let inner_expr = p.expr(int_ty(), ExprKind::Block(inner));
    let stmt = p.expr_stmt(inner_expr);
    let main = p.body("Main", vec![stmt]);
    let store = p.finish(main);
    let package = store.get(USER);

    assert_eq!(expect_single_expr_block_in_callable(package, "Main"), Some(inner));
    assert_eq!(expect_single_expr_block_in_callable(package, "Sum"), None);
    let (temp, sum_call) = expect_block_binds_call_then_returns_expr(package, inner, "BuildPair")
        .expect("block should bind the call");
    assert_eq!((temp, sum_call), (LocalVarId(1), call));
    assert_eq!(expect_block_binds_call_then_returns_expr(package, inner, "Sum"), None);
    assert_eq!(expect_direct_item_call(package, sum_call, "Sum"), Some(arg));
    assert_eq!(expect_direct_item_call(package, sum_call, "BuildPair"), None);
    assert_eq!(expect_direct_item_call(package, arg, "Sum"), None);
    let paths = vec![vec![0], vec![1]];
    assert!(expect_projected_tuple_from_local(package, arg, temp, &paths));
    assert!(!expect_projected_tuple_from_local(package, arg, LocalVarId(2), &paths));
    assert!(!expect_projected_tuple_from_local(package, arg, temp, &vec![vec![0], vec![2]]));
    assert!(!expect_projected_tuple_from_local(package, arg, temp, &vec![vec![0]]));
    assert!(assert_call_shape_count(&store, USER, "Main", "BuildPair(", 1));
}

#[test]
fn a_controlled_payload_may_be_a_block() {
    let mut p = Program::new();
    let foo = p.empty("Foo");
    let q = p.local(9, Ty::Prim(Prim::Qubit));
    let controls = p.expr(unit_ty(), ExprKind::Array(vec![q]));
    let payload = p.block(pair_ty(), Vec::new());
    let payload_expr = p.expr(pair_ty(), ExprKind::Block(payload));
    let arg = p.tuple(vec![controls, payload_expr]);
    let call = p.functor_call(Functor::Ctl, foo, arg);
    let stmt = p.expr_stmt(call);
    let main = p.body("Main", vec![stmt]);
    let store = p.finish(main);
    let package = store.get(USER);
    assert_eq!(expect_controlled_payload_block(package, "Main", "Foo"), Some(payload));
    assert_eq!(expect_controlled_payload_block(package, "Main", "Bar"), None);
    assert_eq!(find_functor_call_arg(package, "Main", Functor::Ctl, "Foo"), Some(arg));
    assert!(assert_call_shapes_contain(
        &store,
        USER,
        "Main",
        "Functor(Ctl)(Foo)((Array(len=1), Block))"
    ));
}

#[test]
fn callables_are_found_by_name() {
    let mut p = Program::new();
    let block = p.block(unit_ty(), Vec::new());
    let input = p.bind("p", 1, pair_ty());
    p.callable("Simulated", input, CallableImpl::SimulatableIntrinsic(SpecDecl {
        block,
        input: None,
    }));
    p.callable("Intrinsic", input, CallableImpl::Intrinsic);
    let main = p.empty("Main");
    let store = p.finish(main);
    let package = store.get(USER);
    assert!(find_callable(package, "Main").is_some());
    assert!(find_callable(package, "main").is_none());
    assert_eq!(callable_body_block_id(package, "Simulated"), Some(block));
    assert_eq!(callable_body_block_id(package, "Intrinsic"), None);
    assert_eq!(expect_single_expr_block_in_callable(package, "Simulated"), None);
    assert_eq!(expect_single_expr_block_in_callable(package, "Intrinsic"), None);
    assert_eq!(callable_input_binding_names(package, "Simulated"), strings(&["p"]));
    assert_eq!(
        item_name(package, &ItemId { package: USER, item: LocalItemId(1) }),
        "Intrinsic"
    );
}

#[test]
fn closure_targets_are_named_once() {
    let mut p = Program::new();
    let lambda = p.empty("<lambda>");
    let dead_lambda = p.empty("<dead>");
    let dead = p.expr(unit_ty(), ExprKind::Closure(Vec::new(), dead_lambda));
    let stmt = p.expr_stmt(dead);
    p.body("Dead", vec![stmt]);
    let mut stmts = Vec::new();
    for _ in 0..2 {
        let closure = p.expr(unit_ty(), ExprKind::Closure(Vec::new(), lambda));
        stmts.push(p.stmt(StmtKind::Semi(closure)));
    }
    let main = p.body("Main", stmts);
    let store = p.finish(main);
    assert_eq!(closure_target_names(&store, USER), strings(&["<lambda>"]));
}

#[test]
fn nested_field_accesses_are_made_to_share_their_inner_expression() {
    let nested = || Ty::Tuple(vec![pair_ty(), int_ty()]);
    let mut p = Program::new();
    let input = p.bind("o", 1, nested());
    let first = p.field(1, vec![0, 0]);
    let second = p.field(1, vec![1]);
    let stmts = vec![p.stmt(StmtKind::Semi(first)), p.stmt(StmtKind::Semi(second))];
    let block = p.block(unit_ty(), stmts);
    let sum = p.function("Sum", input, block);
    let arg = p.int_lit(1);
    let call = p.call(sum, arg);
    let stmt = p.expr_stmt(call);
    let main = p.body("Main", vec![stmt]);
    let mut store = p.finish(main);
    assert!(!force_shared_nested_field_inner_expr(&mut store, USER, "Sum", "x"));
    assert!(!force_shared_nested_field_inner_expr(&mut store, USER, "Main", "o"));
    assert_eq!(extract_field_access_shapes(&store, USER, "Sum"), "o.0.0\no.1");
    assert!(force_shared_nested_field_inner_expr(&mut store, USER, "Sum", "o"));
    assert_eq!(extract_field_access_shapes(&store, USER, "Sum"), "o.0.0\no.0.1");
    let inner = |e: ExprId| match &store.get(USER).get_expr(e).kind {
        ExprKind::Field(inner, _) => *inner,
        kind => panic!("unexpected expression {kind:?}"),
    };
    assert_eq!(inner(first), inner(second));
}

#[test]
fn a_later_binding_gives_a_variable_its_name() {
    let mut p = Program::new();
    p.bind("old", 1, int_ty());
    p.bind("new", 1, int_ty());
    let e = p.local(1, int_ty());
    let stmt = p.expr_stmt(e);
    let main = p.body("Main", vec![stmt]);
    let store = p.finish(main);
    let package = store.get(USER);
    assert_eq!(format_call_operand(package, &local_names(package), e), "new");
}

#[test]
fn numbers_are_written_in_decimal() {
    let mut out = "n=".to_string();
    append_decimal(&mut out, 0);
    append_decimal(&mut out, 1907);
    assert_eq!(out, "n=01907");
    let mut out = String::new();
    append_signed_decimal(&mut out, -305);
    assert_eq!(out, "-305");
}

#[test]
fn texts_are_joined_sorted_and_searched() {
    assert_eq!(join(&strings(&["a", "", "b"]), ", "), "a, , b");
    assert_eq!(join(&Vec::new(), ", "), "");
    assert_eq!(
        sort_texts(&strings(&["b", "a", "", "ab", "a"])),
        strings(&["", "a", "a", "ab", "b"])
    );
    assert_eq!(dedup_texts(&strings(&["a", "a", "b", "a"])), strings(&["a", "b", "a"]));
    assert!(has_text("abcabd", "abd"));
    assert!(has_text("", ""));
    assert!(!has_text("abcab", "abd"));
    assert!(same_text("x", "x"));
    assert!(!same_text("x", "xy"));
}

#[test]
fn lines_are_counted_as_the_standard_library_splits_them() {
    for text in ["", "\n", "ab\n", "ab\r\nabc\nb", "ab\r", "\n\nab", "a\rb\n\r\nab\r\n"] {
        for prefix in ["", "a", "ab", "ab\r", "\r"] {
            let expected = text.lines().filter(|line| line.starts_with(prefix)).count();
            assert_eq!(count_lines_starting_with(text, prefix), expected, "{text:?} {prefix:?}");
        }
    }
}
