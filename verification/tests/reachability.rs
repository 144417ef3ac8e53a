use qsc_fir_transforms::fir::{
    BinOp, Block, BlockId, CallableDecl, CallableImpl, ExecRange, Expr, ExprId, ExprKind, Ident,
    Item, ItemId, ItemKind, Lit, LocalItemId, LocalVarId, Mutability, Package, PackageId,
    PackageStore, Pat, PatId, PatKind, Prim, Res, Span, SpecDecl, Specializations, Stmt, StmtId,
    StmtKind, StoreItemId, Ty,
};
use qsc_fir_transforms::reachability::{
    collect_reachable_from_entry, collect_reachable_with_seeds, extract_reachable,
    try_collect_reachable,
};

const LIB: PackageId = PackageId(0);
const USER: PackageId = PackageId(1);
const NO_RANGE: ExecRange = ExecRange { start: 0, end: 0 };

fn int_ty() -> Ty {
    Ty::Prim(Prim::Int)
}

fn unit_ty() -> Ty {
    Ty::Tuple(Vec::new())
}

fn named(name: &str) -> Ident {
    Ident { id: LocalVarId(0), span: Span::default(), name: name.to_string() }
}

/// Whether everything that the entry expression reaches is whole.
fn is_whole(store: &PackageStore) -> bool {
    try_collect_reachable(store, USER, &Vec::new()).is_some()
}

struct Program {
    package: Package,
    id: PackageId,
    items: usize,
    exprs: usize,
    stmts: usize,
    blocks: usize,
    pats: usize,
}

impl Program {
    fn new(id: PackageId) -> Self {
        Program { package: Package::new(), id, items: 0, exprs: 0, stmts: 0, blocks: 0, pats: 0 }
    }

    fn expr(&mut self, ty: Ty, kind: ExprKind) -> ExprId {
        let id = ExprId(self.exprs);
        self.exprs += 1;
        self.package.exprs.insert(
            id.0,
            Expr { id, span: Span { lo: 1, hi: 2 }, ty, kind, exec_graph_range: NO_RANGE },
        );
        id
    }

    fn stmt(&mut self, kind: StmtKind) -> StmtId {
        let id = StmtId(self.stmts);
        self.stmts += 1;
        self.package.stmts.insert(
            id.0,
            Stmt { id, span: Span { lo: 1, hi: 2 }, kind, exec_graph_range: NO_RANGE },
        );
        id
    }

    fn block(&mut self, ty: Ty, stmts: Vec<StmtId>) -> BlockId {
        let id = BlockId(self.blocks);
        self.blocks += 1;
        self.package.blocks.insert(id.0, Block { id, span: Span { lo: 1, hi: 2 }, ty, stmts });
        id
    }

    fn pat(&mut self, ty: Ty, kind: PatKind) -> PatId {
        let id = PatId(self.pats);
        self.pats += 1;
        self.package.pats.insert(id.0, Pat { id, span: Span { lo: 1, hi: 2 }, ty, kind });
        id
    }

    fn bind(&mut self, name: &str, local: usize, ty: Ty) -> PatId {
        let ident = Ident {
            id: LocalVarId(local),
            span: Span { lo: 1, hi: 2 },
            name: name.to_string(),
        };
        self.pat(ty, PatKind::Bind(ident))
    }

    fn item(&mut self, kind: ItemKind) -> LocalItemId {
        let id = LocalItemId(self.items);
        self.items += 1;
        self.package.items.insert(id.0, Item { id, span: Span { lo: 1, hi: 2 }, kind });
        id
    }

    fn callable(&mut self, name: &str, implementation: CallableImpl) -> LocalItemId {
        let input = self.pat(unit_ty(), PatKind::Tuple(Vec::new()));
        self.item(ItemKind::Callable(Box::new(CallableDecl {
            name: named(name),
            input,
            output: unit_ty(),
            implementation,
        })))
    }

    /// A callable whose body is the block.
    fn function(&mut self, name: &str, block: BlockId) -> LocalItemId {
        self.callable(
            name,
            CallableImpl::Spec(Specializations {
                body: SpecDecl { block, input: None },
                adj: None,
                ctl: None,
                ctl_adj: None,
            }),
        )
    }

    fn int_lit(&mut self, n: i64) -> ExprId {
        self.expr(int_ty(), ExprKind::Lit(Lit::Int(n)))
    }

    fn local(&mut self, local: usize) -> ExprId {
        self.expr(int_ty(), ExprKind::Var(Res::Local(LocalVarId(local)), Vec::new()))
    }

    fn name_of(&mut self, package: PackageId, item: LocalItemId) -> ExprId {
        self.expr(unit_ty(), ExprKind::Var(Res::Item(ItemId { package, item }), Vec::new()))
    }

    /// A call of an item with these arguments.
    fn call_in(&mut self, package: PackageId, item: LocalItemId, args: Vec<ExprId>) -> ExprId {
        let callee = self.name_of(package, item);
        let arg = self.expr(unit_ty(), ExprKind::Tuple(args));
        self.expr(unit_ty(), ExprKind::Call(callee, arg))
    }

    fn call(&mut self, item: LocalItemId, args: Vec<ExprId>) -> ExprId {
        self.call_in(self.id, item, args)
    }

    /// A block of call statements.
    fn calls(&mut self, items: &[LocalItemId]) -> BlockId {
        let mut stmts = Vec::new();
        for &item in items {
            let call = self.call(item, Vec::new());
            stmts.push(self.stmt(StmtKind::Semi(call)));
        }
        self.block(unit_ty(), stmts)
    }

    /// A callable that does nothing but call the items.
    fn caller(&mut self, name: &str, items: &[LocalItemId]) -> LocalItemId {
        let block = self.calls(items);
        self.function(name, block)
    }

    /// A callable that gives one expression.
    fn value(&mut self, name: &str, expr: ExprId) -> LocalItemId {
        let stmt = self.stmt(StmtKind::Expr(expr));
        let block = self.block(int_ty(), vec![stmt]);
        self.function(name, block)
    }

    /// Makes the entry expression call the item, and puts the package into a store.
    fn finish(mut self, main: LocalItemId) -> PackageStore {
        let entry = self.call(main, Vec::new());
        self.package.entry = Some(entry);
        let mut store = PackageStore::new();
        store.insert(LIB, Package::new());
        store.insert(self.id, self.package);
        assert!(is_whole(&store));
        store
    }
}

fn check(store: &PackageStore, expected: &[&str]) {
    assert_eq!(extract_reachable(store, USER), expected.join("\n"));
}

fn item_id(item: LocalItemId) -> StoreItemId {
    StoreItemId { package: USER, item }
}

/// `if n <= 0 { 0 } else { callee(n - 1) }` on the local variable.
fn countdown(p: &mut Program, local: usize, callee: LocalItemId) -> ExprId {
    let n = p.local(local);
    let zero = p.int_lit(0);
    let test = p.expr(Ty::Prim(Prim::Bool), ExprKind::BinOp(BinOp::Lte, n, zero));
    let base = p.int_lit(0);
    let base_stmt = p.stmt(StmtKind::Expr(base));
    let base_block = p.block(int_ty(), vec![base_stmt]);
    let base_expr = p.expr(int_ty(), ExprKind::Block(base_block));
    let n = p.local(local);
    let one = p.int_lit(1);
    let less = p.expr(int_ty(), ExprKind::BinOp(BinOp::Sub, n, one));
    let call = p.call(callee, vec![less]);
    let call_stmt = p.stmt(StmtKind::Expr(call));
    let call_block = p.block(int_ty(), vec![call_stmt]);
    let call_expr = p.expr(int_ty(), ExprKind::Block(call_block));
    p.expr(int_ty(), ExprKind::If(test, base_expr, Some(call_expr)))
}

#[test]
fn unreachable_callable_excluded() {
    let mut p = Program::new(USER);
    p.caller("Orphan", &[]);
    let main = p.caller("Main", &[]);
    check(&p.finish(main), &["Main"]);
}

#[test]
fn transitive_chain_reachable_and_uncalled_excluded() {
    let mut p = Program::new(USER);
    let c = p.caller("C", &[]);
    let b = p.caller("B", &[c]);
    let a = p.caller("A", &[b]);
    p.caller("Dead", &[]);
    let main = p.caller("Main", &[a]);
    check(&p.finish(main), &["A", "B", "C", "Main"]);
}

#[test]
fn diamond_call_graph() {
    let mut p = Program::new(USER);
    let leaf = p.caller("Leaf", &[]);
    let a = p.caller("A", &[leaf]);
    let b = p.caller("B", &[leaf]);
    let main = p.caller("Main", &[a, b]);
    check(&p.finish(main), &["A", "B", "Leaf", "Main"]);
}

#[test]
fn multiple_unreachable_functions() {
    let mut p = Program::new(USER);
    p.caller("Dead1", &[]);
    p.caller("Dead2", &[]);
    let alive = p.caller("Alive", &[]);
    let main = p.caller("Main", &[alive]);
    check(&p.finish(main), &["Alive", "Main"]);
}

#[test]
fn closure_inside_reachable_callable_followed() {
    let mut p = Program::new(USER);
    let x = p.local(10);
    let one = p.int_lit(1);
    let sum = p.expr(int_ty(), ExprKind::BinOp(BinOp::Add, x, one));
    let lambda = p.value("<lambda>", sum);
    let closure = p.expr(unit_ty(), ExprKind::Closure(Vec::new(), lambda));
    let f = p.bind("f", 1, unit_ty());
    let let_f = p.stmt(StmtKind::Local(Mutability::Immutable, f, closure));
    let callee = p.local(1);
    let five = p.int_lit(5);
    let call = p.expr(int_ty(), ExprKind::Call(callee, five));
    let result = p.stmt(StmtKind::Expr(call));
    let block = p.block(int_ty(), vec![let_f, result]);
    let main = p.function("Main", block);
    check(&p.finish(main), &["<lambda>", "Main"]);
}

#[test]
fn recursive_callable_reachable() {
    let mut p = Program::new(USER);
    // The callable names itself: it gets the first identifier.
    let recurse = LocalItemId(0);
    let body = countdown(&mut p, 1, recurse);
    assert_eq!(p.value("Recurse", body), recurse);
    let five = p.int_lit(5);
    let call = p.call(recurse, vec![five]);
    let main = p.value("Main", call);
    check(&p.finish(main), &["Main", "Recurse"]);
}

#[test]
fn mutually_recursive_callables_reachable() {
    let mut p = Program::new(USER);
    let (ping, pong) = (LocalItemId(0), LocalItemId(1));
    let body = countdown(&mut p, 1, pong);
    assert_eq!(p.value("Ping", body), ping);
    let n = p.local(2);
    let back = p.call(ping, vec![n]);
    assert_eq!(p.value("Pong", back), pong);
    let three = p.int_lit(3);
    let call = p.call(ping, vec![three]);
    let main = p.value("Main", call);
    check(&p.finish(main), &["Main", "Ping", "Pong"]);
}

#[test]
fn callable_only_in_unreachable_branch() {
    let mut p = Program::new(USER);
    let dead_end = p.caller("DeadEnd", &[]);
    let test = p.expr(Ty::Prim(Prim::Bool), ExprKind::Lit(Lit::Bool(false)));
    let then = p.calls(&[dead_end]);
    let then = p.expr(unit_ty(), ExprKind::Block(then));
    let branch = p.expr(unit_ty(), ExprKind::If(test, then, None));
    let stmt = p.stmt(StmtKind::Expr(branch));
    let block = p.block(unit_ty(), vec![stmt]);
    let main = p.function("Main", block);
    check(&p.finish(main), &["DeadEnd", "Main"]);
}

#[test]
fn callable_only_in_closure_body() {
    let mut p = Program::new(USER);
    let other = p.caller("Other", &[]);
    let call = p.call(other, Vec::new());
    let lambda = p.value("<lambda>", call);
    let closure = p.expr(unit_ty(), ExprKind::Closure(Vec::new(), lambda));
    let f = p.bind("f", 1, unit_ty());
    let let_f = p.stmt(StmtKind::Local(Mutability::Immutable, f, closure));
    let block = p.block(unit_ty(), vec![let_f]);
    let main = p.function("Main", block);
    check(&p.finish(main), &["<lambda>", "Main", "Other"]);
}

#[test]
fn lambda_in_entry_expression() {
    let mut p = Program::new(USER);
    let (a, b) = (p.local(10), p.local(11));
    let sum = p.expr(int_ty(), ExprKind::BinOp(BinOp::Add, a, b));
    let lambda = p.value("<lambda>", sum);
    let closure = p.expr(unit_ty(), ExprKind::Closure(Vec::new(), lambda));
    let add = p.bind("add", 1, unit_ty());
    let let_add = p.stmt(StmtKind::Local(Mutability::Immutable, add, closure));
    let callee = p.local(1);
    let (three, four) = (p.int_lit(3), p.int_lit(4));
    let args = p.expr(Ty::Tuple(vec![int_ty(), int_ty()]), ExprKind::Tuple(vec![three, four]));
    let call = p.expr(int_ty(), ExprKind::Call(callee, args));
    let result = p.stmt(StmtKind::Expr(call));
    let block = p.block(int_ty(), vec![let_add, result]);
    let main = p.function("Main", block);
    check(&p.finish(main), &["<lambda>", "Main"]);
}

#[test]
fn cross_package_call_reachability_scoped_to_package() {
    let mut lib = Program::new(LIB);
    let a = lib.local(1);
    let max = lib.value("MaxI", a);
    let mut p = Program::new(USER);
    let (one, two) = (p.int_lit(1), p.int_lit(2));
    let call = p.call_in(LIB, max, vec![one, two]);
    let main = p.value("Main", call);
    let mut store = p.finish(main);
    store.insert(LIB, lib.package);
    check(&store, &["Main"]);
    // The set itself goes across packages.
    let reachable = collect_reachable_from_entry(&store, USER);
    assert!(reachable.contains(&StoreItemId { package: LIB, item: max }));
}

#[test]
fn simulatable_intrinsic_callable_reachable() {
    let mut p = Program::new(USER);
    let block = p.block(unit_ty(), Vec::new());
    let my_op = p.callable(
        "MyOp",
        CallableImpl::SimulatableIntrinsic(SpecDecl { block, input: None }),
    );
    let main = p.caller("Main", &[my_op]);
    check(&p.finish(main), &["Main", "MyOp"]);
}

#[test]
fn item_referenced_only_from_simulatable_intrinsic_body_is_not_reachable() {
    let mut p = Program::new(USER);
    let sim_helper = p.caller("SimHelper", &[]);
    let real_helper = p.caller("RealHelper", &[]);
    let block = p.calls(&[sim_helper]);
    let sim_op = p.callable(
        "SimOp",
        CallableImpl::SimulatableIntrinsic(SpecDecl { block, input: None }),
    );
    let main = p.caller("Main", &[sim_op, real_helper]);
    check(&p.finish(main), &["Main", "RealHelper", "SimOp"]);
}

#[test]
fn dangling_item_reference_is_ignored() {
    let mut p = Program::new(USER);
    let helper = p.caller("Helper", &[]);
    let main = p.caller("Main", &[helper]);
    let mut store = p.finish(main);

    store.get_mut(USER).items.remove(helper.0);

    let reachable = collect_reachable_from_entry(&store, USER);
    assert!(reachable.contains(&item_id(main)));
    assert!(!reachable.contains(&item_id(helper)));
}

#[test]
fn seeds_include_transitive_deps_unreachable_from_entry() {
    let mut p = Program::new(USER);
    let helper = p.caller("Helper", &[]);
    let unreachable = p.caller("Unreachable", &[helper]);
    let main = p.caller("Main", &[]);
    let store = p.finish(main);

    let entry_only = collect_reachable_from_entry(&store, USER);
    assert!(
        !entry_only.contains(&item_id(unreachable)),
        "Unreachable should not be in the entry-only set"
    );
    assert!(
        !entry_only.contains(&item_id(helper)),
        "Helper should not be in the entry-only set"
    );

    let seeded = collect_reachable_with_seeds(&store, USER, &vec![item_id(unreachable)]);
    assert!(
        seeded.contains(&item_id(unreachable)),
        "seed callable should be in the seeded set"
    );
    assert!(
        seeded.contains(&item_id(helper)),
        "transitive dep of seed should be in the seeded set"
    );
    assert!(seeded.contains(&item_id(main)), "seeds only add to the entry-only set");
}

#[test]
fn collect_reachable_with_seeds_missing_seed_is_documented() {
    let mut p = Program::new(USER);
    let pinned = p.caller("Pinned", &[]);
    let main = p.caller("Main", &[]);
    let mut store = p.finish(main);

    store.get_mut(USER).items.remove(pinned.0);

    let reachable = collect_reachable_with_seeds(&store, USER, &vec![item_id(pinned)]);
    assert!(
        !reachable.contains(&item_id(pinned)),
        "generic seeded reachability should skip a missing seed item"
    );
}

#[test]
fn collect_reachable_with_seeds_missing_transitive_item_is_documented() {
    let mut p = Program::new(USER);
    let helper = p.caller("Helper", &[]);
    let pinned = p.caller("Pinned", &[helper]);
    let main = p.caller("Main", &[]);
    let mut store = p.finish(main);

    store.get_mut(USER).items.remove(helper.0);

    let reachable = collect_reachable_with_seeds(&store, USER, &vec![item_id(pinned)]);
    assert!(
        reachable.contains(&item_id(pinned)),
        "existing seed item should remain reachable"
    );
    assert!(
        !reachable.contains(&item_id(helper)),
        "generic seeded reachability should skip a missing transitive item"
    );
}

#[test]
fn reachability_is_idempotent() {
    let mut p = Program::new(USER);
    let helper = p.caller("Helper", &[]);
    p.caller("Dead", &[]);
    let main = p.caller("Main", &[helper]);
    let store = p.finish(main);
    let first = collect_reachable_from_entry(&store, USER);
    let second = collect_reachable_from_entry(&store, USER);
    assert_eq!(first, second, "reachability analysis should be idempotent");
}

#[test]
fn reached_seeds_add_nothing() {
    let mut p = Program::new(USER);
    let helper = p.caller("Helper", &[]);
    p.caller("Dead", &[]);
    let main = p.caller("Main", &[helper]);
    let store = p.finish(main);
    let seeded =
        collect_reachable_with_seeds(&store, USER, &vec![item_id(helper), item_id(main)]);
    assert_eq!(seeded, collect_reachable_from_entry(&store, USER));
}

#[test]
fn every_specialization_is_followed() {
    let mut p = Program::new(USER);
    let in_body = p.caller("InBody", &[]);
    let in_adj = p.caller("InAdj", &[]);
    let in_ctl = p.caller("InCtl", &[]);
    let in_ctl_adj = p.caller("InCtlAdj", &[]);
    let body = p.calls(&[in_body]);
    let adj = p.calls(&[in_adj]);
    let ctl = p.calls(&[in_ctl]);
    let ctl_adj = p.calls(&[in_ctl_adj]);
    let op = p.callable(
        "Op",
        CallableImpl::Spec(Specializations {
            body: SpecDecl { block: body, input: None },
            adj: Some(SpecDecl { block: adj, input: None }),
            ctl: Some(SpecDecl { block: ctl, input: None }),
            ctl_adj: Some(SpecDecl { block: ctl_adj, input: None }),
        }),
    );
    let main = p.caller("Main", &[op]);
    check(&p.finish(main), &["InAdj", "InBody", "InCtl", "InCtlAdj", "Main", "Op"]);
}

#[test]
fn a_named_item_need_not_be_called() {
    let mut p = Program::new(USER);
    let stored = p.caller("Stored", &[]);
    let reference = p.name_of(USER, stored);
    let main = p.value("Main", reference);
    check(&p.finish(main), &["Main", "Stored"]);
}

#[test]
fn a_type_item_is_reachable_but_is_no_callable() {
    let mut p = Program::new(USER);
    let ty = p.item(ItemKind::Ty(named("Pair")));
    let constructor = p.name_of(USER, ty);
    let main = p.value("Main", constructor);
    let store = p.finish(main);
    check(&store, &["Main"]);
    assert!(collect_reachable_from_entry(&store, USER).contains(&item_id(ty)));
}

#[test]
fn without_entry_only_seeds_are_reached() {
    let mut p = Program::new(USER);
    let helper = p.caller("Helper", &[]);
    let main = p.caller("Main", &[helper]);
    let mut store = p.finish(main);
    store.get_mut(USER).entry = None;
    check(&store, &[]);
    let seeded = collect_reachable_with_seeds(&store, USER, &vec![item_id(helper)]);
    assert!(seeded.contains(&item_id(helper)));
    assert!(!seeded.contains(&item_id(main)));
}

#[test]
fn names_come_sorted_by_code_point() {
    let mut p = Program::new(USER);
    let items: Vec<LocalItemId> =
        ["b", "B", "ab", "a", "\u{e9}"].iter().map(|name| p.caller(name, &[])).collect();
    let main = p.caller("Main", &items);
    check(&p.finish(main), &["B", "Main", "a", "ab", "b", "\u{e9}"]);
}

#[test]
fn what_is_reached_has_to_be_whole() {
    let mut p = Program::new(USER);
    let helper = p.caller("Helper", &[]);
    let main = p.caller("Main", &[helper]);
    let store = p.finish(main);
    assert!(is_whole(&store));

    let mut without_expr = store.clone();
    without_expr.get_mut(USER).exprs.remove(0);
    assert!(!is_whole(&without_expr));

    let mut without_stmt = store.clone();
    without_stmt.get_mut(USER).stmts.remove(0);
    assert!(!is_whole(&without_stmt));

    let mut without_pat = store.clone();
    without_pat.get_mut(USER).pats.remove(0);
    assert!(!is_whole(&without_pat));

    let mut inside_itself = store.clone();
    let package = inside_itself.get_mut(USER);
    let entry = package.entry.expect("entry should exist");
    package.exprs.get_mut(entry.0).kind = ExprKind::Tuple(vec![entry]);
    assert!(!is_whole(&inside_itself));

    assert!(try_collect_reachable(&store, PackageId(5), &Vec::new()).is_none());
}

#[test]
fn what_is_not_reached_may_have_holes() {
    let mut p = Program::new(USER);
    let broken = p.caller("Broken", &[]);
    let main = p.caller("Main", &[]);
    let mut store = p.finish(main);
    // The body of the first callable is the first block.
    store.get_mut(USER).blocks.remove(0);
    assert!(is_whole(&store));
    check(&store, &["Main"]);
    assert!(try_collect_reachable(&store, USER, &vec![item_id(broken)]).is_none());
}
