use std::collections::BTreeMap;

use qsc_fir_transforms::assigner::Assigner;
use qsc_fir_transforms::fir::{
    BinOp, Block, BlockId, CallableDecl, CallableImpl, ExecRange, Expr, ExprId, ExprKind, Field,
    FieldPath, Ident, Item, ItemId, ItemKind, Lit, LocalItemId, LocalVarId, Mutability, Package,
    PackageId, PackageStore, Pat, PatId, PatKind, Prim, Res, Span, SpecDecl, Specializations, Stmt,
    StmtId, StmtKind, Ty,
};
use qsc_fir_transforms::reachability::{
    collect_reachable_from_entry, extract_reachable, try_collect_reachable,
};
use qsc_fir_transforms::tuple_destructuring::{can_normalize, normalize_tuple_destructuring};

const USER: PackageId = PackageId(0);
const SOURCE_SPAN: Span = Span { lo: 3, hi: 7 };
const SOURCE_RANGE: ExecRange = ExecRange { start: 1, end: 2 };
const NO_RANGE: ExecRange = ExecRange { start: 0, end: 0 };

fn int_ty() -> Ty {
    Ty::Prim(Prim::Int)
}

fn unit_ty() -> Ty {
    Ty::Tuple(Vec::new())
}

fn pair_ty() -> Ty {
    Ty::Tuple(vec![int_ty(), int_ty()])
}

/// `(Int, (Int, Int))`
fn nested_ty() -> Ty {
    Ty::Tuple(vec![int_ty(), pair_ty()])
}

/// Whether everything that the entry expression reaches is whole.
fn is_whole(store: &PackageStore) -> bool {
    try_collect_reachable(store, USER, &Vec::new()).is_some()
}

struct Program {
    package: Package,
    items: usize,
    exprs: usize,
    stmts: usize,
    blocks: usize,
    pats: usize,
}

impl Program {
    fn new() -> Self {
        Program { package: Package::new(), items: 0, exprs: 0, stmts: 0, blocks: 0, pats: 0 }
    }

    fn expr(&mut self, ty: Ty, kind: ExprKind) -> ExprId {
        let id = ExprId(self.exprs);
        self.exprs += 1;
        self.package.exprs.insert(
            id.0,
            Expr { id, span: SOURCE_SPAN, ty, kind, exec_graph_range: SOURCE_RANGE },
        );
        id
    }

    fn stmt(&mut self, kind: StmtKind) -> StmtId {
        let id = StmtId(self.stmts);
        self.stmts += 1;
        self.package.stmts.insert(
            id.0,
            Stmt { id, span: SOURCE_SPAN, kind, exec_graph_range: SOURCE_RANGE },
        );
        id
    }

    fn block(&mut self, ty: Ty, stmts: Vec<StmtId>) -> BlockId {
        let id = BlockId(self.blocks);
        self.blocks += 1;
        self.package.blocks.insert(id.0, Block { id, span: SOURCE_SPAN, ty, stmts });
        id
    }

    fn pat(&mut self, ty: Ty, kind: PatKind) -> PatId {
        let id = PatId(self.pats);
        self.pats += 1;
        self.package.pats.insert(id.0, Pat { id, span: SOURCE_SPAN, ty, kind });
        id
    }

    fn bind(&mut self, name: &str, local: usize, ty: Ty) -> PatId {
        let ident =
            Ident { id: LocalVarId(local), span: SOURCE_SPAN, name: name.to_string() };
        self.pat(ty, PatKind::Bind(ident))
    }

    fn discard(&mut self, ty: Ty) -> PatId {
        self.pat(ty, PatKind::Discard)
    }

    fn tuple_pat(&mut self, ty: Ty, subs: Vec<PatId>) -> PatId {
        self.pat(ty, PatKind::Tuple(subs))
    }

    fn function(&mut self, name: &str, input: PatId, output: Ty, block: BlockId) -> LocalItemId {
        let id = LocalItemId(self.items);
        self.items += 1;
        let decl = CallableDecl {
            name: Ident { id: LocalVarId(0), span: SOURCE_SPAN, name: name.to_string() },
            input,
            output,
            implementation: CallableImpl::Spec(Specializations {
                body: SpecDecl { block, input: None },
                adj: None,
                ctl: None,
                ctl_adj: None,
            }),
        };
        let kind = ItemKind::Callable(Box::new(decl));
        self.package.items.insert(id.0, Item { id, span: SOURCE_SPAN, kind });
        id
    }

    fn int_lit(&mut self, n: i64) -> ExprId {
        self.expr(int_ty(), ExprKind::Lit(Lit::Int(n)))
    }

    fn local(&mut self, local: usize, ty: Ty) -> ExprId {
        self.expr(ty, ExprKind::Var(Res::Local(LocalVarId(local)), Vec::new()))
    }

    fn tuple(&mut self, ty: Ty, items: Vec<ExprId>) -> ExprId {
        self.expr(ty, ExprKind::Tuple(items))
    }

    fn field(&mut self, ty: Ty, record: ExprId, indices: Vec<usize>) -> ExprId {
        self.expr(ty, ExprKind::Field(record, Field::Path(FieldPath { indices })))
    }

    fn binary(&mut self, op: BinOp, a: ExprId, b: ExprId) -> ExprId {
        self.expr(int_ty(), ExprKind::BinOp(op, a, b))
    }

    fn call(&mut self, item: LocalItemId, ty: Ty, arg: ExprId) -> ExprId {
        let id = ItemId { package: USER, item };
        let callee = self.expr(unit_ty(), ExprKind::Var(Res::Item(id), Vec::new()));
        self.expr(ty, ExprKind::Call(callee, arg))
    }

    fn let_stmt(&mut self, pat: PatId, init: ExprId) -> StmtId {
        self.stmt(StmtKind::Local(Mutability::Immutable, pat, init))
    }

    /// Weighs the locals by powers of ten, the last one by one.
    fn weighed(&mut self, locals: &[usize]) -> ExprId {
        let mut sum = self.local(locals[0], int_ty());
        for &local in &locals[1..] {
            let ten = self.int_lit(10);
            let scaled = self.binary(BinOp::Mul, sum, ten);
            let next = self.local(local, int_ty());
            sum = self.binary(BinOp::Add, scaled, next);
        }
        sum
    }

    /// Makes the entry expression call the item, and puts the package into a store.
    fn finish(mut self, main: LocalItemId) -> (PackageStore, Assigner) {
        let arg = self.tuple(unit_ty(), Vec::new());
        let entry = self.call(main, int_ty(), arg);
        self.package.entry = Some(entry);
        let assigner = Assigner::from_package(&self.package);
        assert_eq!(assigner.next_expr, self.exprs);
        assert_eq!(assigner.next_stmt, self.stmts);
        let mut store = PackageStore::new();
        store.insert(USER, self.package);
        assert!(is_whole(&store));
        (store, assigner)
    }
}

#[derive(Clone, Debug, PartialEq)]
enum Val {
    Int(i64),
    Tuple(Vec<Val>),
}

type Env = BTreeMap<usize, Val>;

fn project(v: &Val, path: &[usize]) -> Val {
    match (v, path) {
        (_, []) => v.clone(),
        (Val::Tuple(vs), [first, rest @ ..]) => project(&vs[*first], rest),
        _ => panic!("projection out of {v:?}"),
    }
}

fn assign(package: &Package, pat: PatId, v: &Val, env: &mut Env) {
    match (&package.get_pat(pat).kind, v) {
        (PatKind::Bind(ident), _) => {
            env.insert(ident.id.0, v.clone());
        }
        (PatKind::Discard, _) => {}
        (PatKind::Tuple(subs), Val::Tuple(vs)) => {
            assert_eq!(subs.len(), vs.len());
            for (&sub, v) in subs.iter().zip(vs) {
                assign(package, sub, v, env);
            }
        }
        _ => panic!("{v:?} does not fit its pattern"),
    }
}

fn eval(package: &Package, e: ExprId, env: &mut Env) -> Val {
    match &package.get_expr(e).kind {
        ExprKind::Lit(Lit::Int(n)) => Val::Int(*n),
        ExprKind::Tuple(items) => {
            Val::Tuple(items.iter().map(|&item| eval(package, item, env)).collect())
        }
        ExprKind::Var(Res::Local(local), _) => env[&local.0].clone(),
        ExprKind::Field(record, Field::Path(path)) => {
            project(&eval(package, *record, env), &path.indices)
        }
        ExprKind::BinOp(op, a, b) => {
            let (Val::Int(a), Val::Int(b)) = (eval(package, *a, env), eval(package, *b, env))
            else {
                panic!("arithmetic on tuples");
            };
            match op {
                BinOp::Add => Val::Int(a + b),
                BinOp::Mul => Val::Int(a * b),
                _ => panic!("unexpected operator {op:?}"),
            }
        }
        ExprKind::Block(block) => eval_block(package, *block, env),
        ExprKind::Call(callee, arg) => {
            let ExprKind::Var(Res::Item(id), _) = &package.get_expr(*callee).kind else {
                panic!("indirect call");
            };
            let ItemKind::Callable(decl) = &package.get_item(id.item).kind else {
                panic!("call of something that is no callable");
            };
            let CallableImpl::Spec(specs) = &decl.implementation else {
                panic!("call of an intrinsic");
            };
            let arg = eval(package, *arg, env);
            let mut inner = Env::new();
            assign(package, decl.input, &arg, &mut inner);
            eval_block(package, specs.body.block, &mut inner)
        }
        kind => panic!("unexpected expression {kind:?}"),
    }
}

fn eval_block(package: &Package, block: BlockId, env: &mut Env) -> Val {
    let mut value = Val::Tuple(Vec::new());
    for &stmt in &package.get_block(block).stmts {
        value = match package.get_stmt(stmt).kind {
            StmtKind::Expr(e) => eval(package, e, env),
            StmtKind::Semi(e) => {
                eval(package, e, env);
                Val::Tuple(Vec::new())
            }
            StmtKind::Local(_, pat, e) => {
                let v = eval(package, e, env);
                assign(package, pat, &v, env);
                Val::Tuple(Vec::new())
            }
            StmtKind::Item(_) => Val::Tuple(Vec::new()),
        };
    }
    value
}

fn run(store: &PackageStore) -> Val {
    let package = store.get(USER);
    eval(package, package.entry.expect("entry should exist"), &mut Env::new())
}

/// Normalizes, and checks that the program computes the value before and after.
fn check_semantic_equivalence(program: (PackageStore, Assigner), changes: bool, expected: i64) {
    let (mut store, mut assigner) = program;
    assert_eq!(run(&store), Val::Int(expected));
    assert_eq!(normalize_tuple_destructuring(&mut store, USER, &mut assigner), changes);
    assert!(is_whole(&store));
    assert_eq!(run(&store), Val::Int(expected));
    assert!(!normalize_tuple_destructuring(&mut store, USER, &mut assigner));
    assert_eq!(run(&store), Val::Int(expected));
}

/// The projection that a statement binds: the pattern, the source, the path.
fn projection(package: &Package, stmt: StmtId) -> (PatId, usize, Vec<usize>) {
    let StmtKind::Local(_, pat, rhs) = package.get_stmt(stmt).kind else {
        panic!("statement should bind a projection");
    };
    let ExprKind::Field(base, Field::Path(path)) = &package.get_expr(rhs).kind else {
        panic!("right-hand side should be a projection");
    };
    let ExprKind::Var(Res::Local(local), args) = &package.get_expr(*base).kind else {
        panic!("projection should be out of a local variable");
    };
    assert!(args.is_empty());
    (pat, local.0, path.indices.clone())
}

fn ty_shape(ty: &Ty) -> String {
    format!("{ty:?}")
}

/// `function Foo(x : (Int, (Int, Int))) { let (a, (b, c)) = x; ... }` and a call of it. Gives the
/// program with the block of `Foo`, the destructuring statement and the three leaf patterns.
fn nested_destructure() -> (PackageStore, Assigner, BlockId, StmtId, [PatId; 3]) {
    let mut p = Program::new();
    let x = p.bind("x", 1, nested_ty());
    let a = p.bind("a", 2, int_ty());
    let b = p.bind("b", 3, int_ty());
    let c = p.bind("c", 4, int_ty());
    let inner = p.tuple_pat(pair_ty(), vec![b, c]);
    let outer = p.tuple_pat(nested_ty(), vec![a, inner]);
    let source = p.local(1, nested_ty());
    let destructure = p.let_stmt(outer, source);
    let sum = p.weighed(&[2, 3, 4]);
    let result = p.stmt(StmtKind::Expr(sum));
    let block = p.block(int_ty(), vec![destructure, result]);
    let foo = p.function("Foo", x, int_ty(), block);
    let (one, two, three) = (p.int_lit(1), p.int_lit(2), p.int_lit(3));
    let pair = p.tuple(pair_ty(), vec![two, three]);
    let arg = p.tuple(nested_ty(), vec![one, pair]);
    let call = p.call(foo, int_ty(), arg);
    let stmt = p.stmt(StmtKind::Expr(call));
    let body = p.block(int_ty(), vec![stmt]);
    let input = p.tuple_pat(unit_ty(), Vec::new());
    let main = p.function("Main", input, int_ty(), body);
    let (store, assigner) = p.finish(main);
    (store, assigner, block, destructure, [a, b, c])
}

#[test]
fn flat_abi_deeply_nested_param_preserves_evaluated_values() {
    // function Foo(x : (Int, (Int, (Int, Int)))) : Int {
    //     let (a, (b, (c, d))) = x;
    //     a * 1000 + b * 100 + c * 10 + d
    // }
    // function Main() : Int { Foo((1, (2, (3, 4)))) }
    let deep_ty = || Ty::Tuple(vec![int_ty(), nested_ty()]);
    let mut p = Program::new();
    let x = p.bind("x", 1, deep_ty());
    let a = p.bind("a", 2, int_ty());
    let b = p.bind("b", 3, int_ty());
    let c = p.bind("c", 4, int_ty());
    let d = p.bind("d", 5, int_ty());
    let cd = p.tuple_pat(pair_ty(), vec![c, d]);
    let bcd = p.tuple_pat(nested_ty(), vec![b, cd]);
    let abcd = p.tuple_pat(deep_ty(), vec![a, bcd]);
    let source = p.local(1, deep_ty());
    let destructure = p.let_stmt(abcd, source);
    let mut sum: Option<ExprId> = None;
    for (local, weight) in [(2, 1000), (3, 100), (4, 10)] {
        let v = p.local(local, int_ty());
        let w = p.int_lit(weight);
        let scaled = p.binary(BinOp::Mul, v, w);
        sum = Some(match sum {
            Some(before) => p.binary(BinOp::Add, before, scaled),
            None => scaled,
        });
    }
    let last = p.local(5, int_ty());
    let total = p.binary(BinOp::Add, sum.expect("three summands"), last);
    let result = p.stmt(StmtKind::Expr(total));
    let block = p.block(int_ty(), vec![destructure, result]);
    let foo = p.function("Foo", x, int_ty(), block);
    let values: Vec<ExprId> = (1..=4).map(|n| p.int_lit(n)).collect();
    let inner = p.tuple(pair_ty(), vec![values[2], values[3]]);
    let middle = p.tuple(nested_ty(), vec![values[1], inner]);
    let arg = p.tuple(deep_ty(), vec![values[0], middle]);
    let call = p.call(foo, int_ty(), arg);
    let stmt = p.stmt(StmtKind::Expr(call));
    let body = p.block(int_ty(), vec![stmt]);
    let input = p.tuple_pat(unit_ty(), Vec::new());
    let main = p.function("Main", input, int_ty(), body);
    check_semantic_equivalence(p.finish(main), true, 1234);
}

#[test]
fn build_leaf_tuple_interior_whole_tuple_read_preserves_values() {
    // struct Inner { A : Int, B : Int }
    // struct Outer { P : Inner, Z : Int }
    // function GetInner(o : Outer) : Inner { o.P }
    // function Main() : Int {
    //     let outer = new Outer { P = new Inner { A = 3, B = 4 }, Z = 99 };
    //     let inner = GetInner(outer);
    //     inner.A * 10 + inner.B
    // }
    let outer_ty = || Ty::Tuple(vec![pair_ty(), int_ty()]);
    let mut p = Program::new();
    let o = p.bind("o", 1, outer_ty());
    let whole = p.local(1, outer_ty());
    let inner_field = p.field(pair_ty(), whole, vec![0]);
    let stmt = p.stmt(StmtKind::Expr(inner_field));
    let block = p.block(pair_ty(), vec![stmt]);
    let get_inner = p.function("GetInner", o, pair_ty(), block);

    let (three, four, ninety_nine) = (p.int_lit(3), p.int_lit(4), p.int_lit(99));
    let inner_value = p.tuple(pair_ty(), vec![three, four]);
    let outer_value = p.tuple(outer_ty(), vec![inner_value, ninety_nine]);
    let outer = p.bind("outer", 2, outer_ty());
    let let_outer = p.let_stmt(outer, outer_value);
    let arg = p.local(2, outer_ty());
    let call = p.call(get_inner, pair_ty(), arg);
    let inner = p.bind("inner", 3, pair_ty());
    let let_inner = p.let_stmt(inner, call);
    let base = p.local(3, pair_ty());
    let a = p.field(int_ty(), base, vec![0]);
    let ten = p.int_lit(10);
    let scaled = p.binary(BinOp::Mul, a, ten);
    let base = p.local(3, pair_ty());
    let b = p.field(int_ty(), base, vec![1]);
    let sum = p.binary(BinOp::Add, scaled, b);
    let result = p.stmt(StmtKind::Expr(sum));
    let body = p.block(int_ty(), vec![let_outer, let_inner, result]);
    let input = p.tuple_pat(unit_ty(), Vec::new());
    let main = p.function("Main", input, int_ty(), body);
    check_semantic_equivalence(p.finish(main), false, 34);
}

#[test]
fn each_leaf_is_bound_by_one_projection() {
    let (mut store, mut assigner, block, destructure, [a, b, c]) = nested_destructure();
    let before = assigner;
    assert!(normalize_tuple_destructuring(&mut store, USER, &mut assigner));

    let package = store.get(USER);
    let stmts = &package.get_block(block).stmts;
    assert_eq!(stmts.len(), 4);
    // The original statement binds the first leaf; the others come right after it.
    assert_eq!(stmts[0], destructure);
    assert_eq!(stmts[1], StmtId(before.next_stmt));
    assert_eq!(stmts[2], StmtId(before.next_stmt + 1));
    assert_eq!(projection(package, stmts[0]), (a, 1, vec![0]));
    assert_eq!(projection(package, stmts[1]), (b, 1, vec![1, 0]));
    assert_eq!(projection(package, stmts[2]), (c, 1, vec![1, 1]));

    // A read and a projection for each of three leaves, a statement for all but the first.
    assert_eq!(assigner.next_expr, before.next_expr + 6);
    assert_eq!(assigner.next_stmt, before.next_stmt + 2);
}

#[test]
fn synthesized_nodes_have_no_source_and_no_execution_graph_range() {
    let (mut store, mut assigner, block, destructure, _) = nested_destructure();
    let before = assigner;
    assert!(normalize_tuple_destructuring(&mut store, USER, &mut assigner));

    let package = store.get(USER);
    for k in before.next_expr..assigner.next_expr {
        let expr = package.get_expr(ExprId(k));
        assert_eq!(expr.id, ExprId(k));
        assert_eq!(expr.span, Span::default());
        assert_eq!(expr.exec_graph_range, NO_RANGE);
    }
    for k in before.next_stmt..assigner.next_stmt {
        let stmt = package.get_stmt(StmtId(k));
        assert_eq!(stmt.id, StmtId(k));
        assert_eq!(stmt.span, Span::default());
        assert_eq!(stmt.exec_graph_range, NO_RANGE);
    }
    // The reused statement keeps what it had.
    let reused = package.get_stmt(destructure);
    assert_eq!(reused.span, SOURCE_SPAN);
    assert_eq!(reused.exec_graph_range, SOURCE_RANGE);
    assert_eq!(package.get_block(block).span, SOURCE_SPAN);
}

#[test]
fn projections_carry_the_types_of_their_leaves() {
    let (mut store, mut assigner, block, _, _) = nested_destructure();
    assert!(normalize_tuple_destructuring(&mut store, USER, &mut assigner));
    let package = store.get(USER);
    for &stmt in &package.get_block(block).stmts[..3] {
        let StmtKind::Local(_, pat, rhs) = package.get_stmt(stmt).kind else {
            panic!("statement should bind a projection");
        };
        let expr = package.get_expr(rhs);
        assert_eq!(ty_shape(&expr.ty), ty_shape(&package.get_pat(pat).ty));
        let ExprKind::Field(base, _) = &expr.kind else {
            panic!("right-hand side should be a projection");
        };
        assert_eq!(ty_shape(&package.get_expr(*base).ty), ty_shape(&nested_ty()));
    }
}

#[test]
fn normalization_is_idempotent() {
    let (mut store, mut assigner, block, _, _) = nested_destructure();
    assert!(normalize_tuple_destructuring(&mut store, USER, &mut assigner));
    let stmts = store.get(USER).get_block(block).stmts.clone();
    let after = assigner;
    assert!(!normalize_tuple_destructuring(&mut store, USER, &mut assigner));
    assert_eq!(store.get(USER).get_block(block).stmts, stmts);
    assert_eq!(assigner, after);
}

/// A `Main` that takes the pair in the local variable 1 apart with the pattern and gives the
/// result. Gives the program with the block and the destructuring statement.
fn pair_program(
    mutability: Mutability,
    pattern: impl Fn(&mut Program) -> PatId,
    result: impl Fn(&mut Program) -> ExprId,
) -> (PackageStore, Assigner, BlockId, StmtId) {
    let mut p = Program::new();
    let (three, four) = (p.int_lit(3), p.int_lit(4));
    let value = p.tuple(pair_ty(), vec![three, four]);
    let t = p.bind("t", 1, pair_ty());
    let let_t = p.let_stmt(t, value);
    let pat = pattern(&mut p);
    let source = p.local(1, pair_ty());
    let destructure = p.stmt(StmtKind::Local(mutability, pat, source));
    let result = result(&mut p);
    let last = p.stmt(StmtKind::Expr(result));
    let block = p.block(int_ty(), vec![let_t, destructure, last]);
    let input = p.tuple_pat(unit_ty(), Vec::new());
    let main = p.function("Main", input, int_ty(), block);
    let (store, assigner) = p.finish(main);
    (store, assigner, block, destructure)
}

#[test]
fn the_entry_callable_is_not_excluded() {
    let (store, assigner, _, _) = pair_program(
        Mutability::Immutable,
        |p| {
            let (a, b) = (p.bind("a", 2, int_ty()), p.bind("b", 3, int_ty()));
            p.tuple_pat(pair_ty(), vec![a, b])
        },
        |p| p.weighed(&[2, 3]),
    );
    check_semantic_equivalence((store, assigner), true, 34);
}

#[test]
fn a_discard_is_not_projected() {
    let (mut store, mut assigner, block, destructure) = pair_program(
        Mutability::Immutable,
        |p| {
            let (a, b) = (p.discard(int_ty()), p.bind("b", 3, int_ty()));
            p.tuple_pat(pair_ty(), vec![a, b])
        },
        |p| p.local(3, int_ty()),
    );
    let before = assigner;
    assert!(normalize_tuple_destructuring(&mut store, USER, &mut assigner));
    let package = store.get(USER);
    assert_eq!(package.get_block(block).stmts.len(), 3);
    let (_, source, path) = projection(package, destructure);
    assert_eq!((source, path), (1, vec![1]));
    assert_eq!(assigner.next_expr, before.next_expr + 2);
    assert_eq!(assigner.next_stmt, before.next_stmt);
    assert_eq!(run(&store), Val::Int(4));
}

#[test]
fn a_pattern_of_discards_loses_its_statement() {
    let (mut store, mut assigner, block, destructure) = pair_program(
        Mutability::Immutable,
        |p| {
            let (a, b) = (p.discard(int_ty()), p.discard(int_ty()));
            p.tuple_pat(pair_ty(), vec![a, b])
        },
        |p| p.int_lit(5),
    );
    let before = assigner;
    assert!(normalize_tuple_destructuring(&mut store, USER, &mut assigner));
    let package = store.get(USER);
    assert_eq!(package.get_block(block).stmts.len(), 2);
    assert!(!package.get_block(block).stmts.contains(&destructure));
    // The node itself stays in the package.
    assert_eq!(package.get_stmt(destructure).id, destructure);
    assert_eq!(assigner, before);
    assert!(is_whole(&store));
    assert_eq!(run(&store), Val::Int(5));
}

#[test]
fn mutability_is_kept() {
    let (mut store, mut assigner, block, _) = pair_program(
        Mutability::Mutable,
        |p| {
            let (a, b) = (p.bind("a", 2, int_ty()), p.bind("b", 3, int_ty()));
            p.tuple_pat(pair_ty(), vec![a, b])
        },
        |p| p.weighed(&[2, 3]),
    );
    assert!(normalize_tuple_destructuring(&mut store, USER, &mut assigner));
    let package = store.get(USER);
    for &stmt in &package.get_block(block).stmts[1..3] {
        assert!(matches!(
            package.get_stmt(stmt).kind,
            StmtKind::Local(Mutability::Mutable, _, _)
        ));
    }
}

#[test]
fn a_pattern_of_another_arity_is_left_alone() {
    let (mut store, mut assigner, _, destructure) = pair_program(
        Mutability::Immutable,
        |p| {
            let a = p.bind("a", 2, int_ty());
            p.tuple_pat(Ty::Tuple(vec![int_ty()]), vec![a])
        },
        |p| p.int_lit(5),
    );
    let kind = store.get(USER).get_stmt(destructure).kind;
    assert!(!normalize_tuple_destructuring(&mut store, USER, &mut assigner));
    assert_eq!(store.get(USER).get_stmt(destructure).kind, kind);
}

#[test]
fn a_plain_copy_is_left_alone() {
    let (mut store, mut assigner, _, _) = pair_program(
        Mutability::Immutable,
        |p| p.bind("copy", 2, pair_ty()),
        |p| p.int_lit(5),
    );
    assert!(!normalize_tuple_destructuring(&mut store, USER, &mut assigner));
}

#[test]
fn a_right_hand_side_that_is_no_local_variable_is_left_alone() {
    let mut p = Program::new();
    let (three, four) = (p.int_lit(3), p.int_lit(4));
    let value = p.tuple(pair_ty(), vec![three, four]);
    let (a, b) = (p.bind("a", 2, int_ty()), p.bind("b", 3, int_ty()));
    let pat = p.tuple_pat(pair_ty(), vec![a, b]);
    let from_literal = p.let_stmt(pat, value);
    let sum = p.weighed(&[2, 3]);
    let result = p.stmt(StmtKind::Expr(sum));
    let block = p.block(int_ty(), vec![from_literal, result]);
    let input = p.tuple_pat(unit_ty(), Vec::new());
    let main = p.function("Main", input, int_ty(), block);
    check_semantic_equivalence(p.finish(main), false, 34);
}

#[test]
fn an_unreachable_callable_is_left_alone() {
    let mut p = Program::new();
    let x = p.bind("x", 1, pair_ty());
    let (a, b) = (p.bind("a", 2, int_ty()), p.bind("b", 3, int_ty()));
    let pat = p.tuple_pat(pair_ty(), vec![a, b]);
    let source = p.local(1, pair_ty());
    let destructure = p.let_stmt(pat, source);
    let sum = p.weighed(&[2, 3]);
    let result = p.stmt(StmtKind::Expr(sum));
    let block = p.block(int_ty(), vec![destructure, result]);
    p.function("Dead", x, int_ty(), block);
    let five = p.int_lit(5);
    let stmt = p.stmt(StmtKind::Expr(five));
    let body = p.block(int_ty(), vec![stmt]);
    let input = p.tuple_pat(unit_ty(), Vec::new());
    let main = p.function("Main", input, int_ty(), body);
    check_semantic_equivalence(p.finish(main), false, 5);
}

#[test]
fn a_nested_block_is_normalized_too() {
    let mut p = Program::new();
    let (three, four) = (p.int_lit(3), p.int_lit(4));
    let value = p.tuple(pair_ty(), vec![three, four]);
    let t = p.bind("t", 1, pair_ty());
    let let_t = p.let_stmt(t, value);
    let (a, b) = (p.bind("a", 2, int_ty()), p.bind("b", 3, int_ty()));
    let pat = p.tuple_pat(pair_ty(), vec![a, b]);
    let source = p.local(1, pair_ty());
    let destructure = p.let_stmt(pat, source);
    let sum = p.weighed(&[2, 3]);
    let inner_result = p.stmt(StmtKind::Expr(sum));
    let inner = p.block(int_ty(), vec![destructure, inner_result]);
    let inner = p.expr(int_ty(), ExprKind::Block(inner));
    let result = p.stmt(StmtKind::Expr(inner));
    let block = p.block(int_ty(), vec![let_t, result]);
    let input = p.tuple_pat(unit_ty(), Vec::new());
    let main = p.function("Main", input, int_ty(), block);
    check_semantic_equivalence(p.finish(main), true, 34);
}

#[test]
fn two_statements_in_a_block_are_both_rewritten() {
    let mut p = Program::new();
    let (three, four) = (p.int_lit(3), p.int_lit(4));
    let value = p.tuple(pair_ty(), vec![three, four]);
    let t = p.bind("t", 1, pair_ty());
    let let_t = p.let_stmt(t, value);
    let mut stmts = vec![let_t];
    for (first, second) in [(2, 3), (4, 5)] {
        let (a, b) = (p.bind("a", first, int_ty()), p.bind("b", second, int_ty()));
        let pat = p.tuple_pat(pair_ty(), vec![a, b]);
        let source = p.local(1, pair_ty());
        stmts.push(p.let_stmt(pat, source));
    }
    let sum = p.weighed(&[2, 3, 4, 5]);
    stmts.push(p.stmt(StmtKind::Expr(sum)));
    let block = p.block(int_ty(), stmts);
    let input = p.tuple_pat(unit_ty(), Vec::new());
    let main = p.function("Main", input, int_ty(), block);
    let (mut store, mut assigner) = p.finish(main);
    let before = assigner;
    assert!(normalize_tuple_destructuring(&mut store, USER, &mut assigner));
    let package = store.get(USER);
    let stmts = &package.get_block(block).stmts;
    assert_eq!(stmts.len(), 6);
    let paths: Vec<Vec<usize>> =
        stmts[1..5].iter().map(|&stmt| projection(package, stmt).2).collect();
    assert_eq!(paths, vec![vec![0], vec![1], vec![0], vec![1]]);
    assert_eq!(stmts[2], StmtId(before.next_stmt));
    assert_eq!(stmts[4], StmtId(before.next_stmt + 1));
    assert_eq!(run(&store), Val::Int(3434));
}

#[test]
fn other_packages_stay_as_they_are() {
    let (mut store, mut assigner, _, _, _) = nested_destructure();
    let mut other = Package::new();
    other.items.insert(
        2,
        Item {
            id: LocalItemId(2),
            span: SOURCE_SPAN,
            kind: ItemKind::Namespace("N".to_string(), Vec::new()),
        },
    );
    store.insert(PackageId(1), other);
    assert!(normalize_tuple_destructuring(&mut store, USER, &mut assigner));
    let other = store.get(PackageId(1));
    assert_eq!(other.items.keys(), vec![2]);
    assert_eq!(other.exprs.len(), 0);
    assert_eq!(other.stmts.len(), 0);
}

#[test]
fn an_assigner_starts_right_above_what_there_is() {
    let mut package = Package::new();
    let fresh = Assigner::from_package(&package);
    assert_eq!((fresh.next_expr, fresh.next_stmt), (0, 0));
    package.exprs.insert(
        4,
        Expr {
            id: ExprId(4),
            span: SOURCE_SPAN,
            ty: int_ty(),
            kind: ExprKind::Lit(Lit::Int(1)),
            exec_graph_range: SOURCE_RANGE,
        },
    );
    package.exprs.insert(
        9,
        Expr {
            id: ExprId(9),
            span: SOURCE_SPAN,
            ty: int_ty(),
            kind: ExprKind::Lit(Lit::Int(1)),
            exec_graph_range: SOURCE_RANGE,
        },
    );
    // A removed node frees the identifiers above what is left.
    package.exprs.remove(9);
    let mut assigner = Assigner::from_package(&package);
    assert_eq!((assigner.next_expr, assigner.next_stmt), (5, 0));
    assert_eq!(assigner.next_expr(), ExprId(5));
    assert_eq!(assigner.next_expr(), ExprId(6));
    assert_eq!(assigner.next_stmt(), StmtId(0));
    assert_eq!((assigner.next_expr, assigner.next_stmt), (7, 1));
}

#[test]
fn the_same_items_stay_reachable() {
    let (mut store, mut assigner, _, _, _) = nested_destructure();
    let before = collect_reachable_from_entry(&store, USER);
    assert!(normalize_tuple_destructuring(&mut store, USER, &mut assigner));
    assert_eq!(collect_reachable_from_entry(&store, USER), before);
    assert_eq!(extract_reachable(&store, USER), "Foo\nMain");
}

#[test]
fn what_was_there_keeps_its_identifier_and_its_contents() {
    let (mut store, mut assigner, block, destructure, _) = nested_destructure();
    let before = store.clone();
    assert!(normalize_tuple_destructuring(&mut store, USER, &mut assigner));
    let (old, new) = (before.get(USER), store.get(USER));
    assert_eq!(new.entry, old.entry);
    assert_eq!(new.items.keys(), old.items.keys());
    assert_eq!(new.pats.keys(), old.pats.keys());
    assert_eq!(new.blocks.keys(), old.blocks.keys());
    for k in old.exprs.keys() {
        let (old, new) = (old.get_expr(ExprId(k)), new.get_expr(ExprId(k)));
        assert_eq!(format!("{old:?}"), format!("{new:?}"));
    }
    for k in old.stmts.keys() {
        if StmtId(k) != destructure {
            assert_eq!(old.get_stmt(StmtId(k)), new.get_stmt(StmtId(k)));
        }
    }
    for k in old.blocks.keys() {
        if BlockId(k) != block {
            assert_eq!(old.get_block(BlockId(k)).stmts, new.get_block(BlockId(k)).stmts);
        }
    }
}

#[test]
fn normalization_needs_identifiers_and_whole_callables() {
    let (mut store, assigner, block, _, _) = nested_destructure();
    assert!(can_normalize(&store, USER, &assigner));
    // Three leaves take six expressions and leave the last identifier alone.
    let fits = Assigner { next_expr: usize::MAX - 7, ..assigner };
    assert!(can_normalize(&store, USER, &fits));
    let too_few_exprs = Assigner { next_expr: usize::MAX - 6, ..assigner };
    assert!(!can_normalize(&store, USER, &too_few_exprs));
    let too_few_stmts = Assigner { next_stmt: usize::MAX - 3, ..assigner };
    assert!(!can_normalize(&store, USER, &too_few_stmts));
    assert!(!can_normalize(&store, PackageId(3), &assigner));
    store.get_mut(USER).blocks.remove(block.0);
    assert!(!can_normalize(&store, USER, &assigner));
}
