//! Short renderings of types, patterns and calls, for comparing what a pass has made of them.

use rustc_hash::FxHashMap;
use vstd::prelude::*;
use vstd::string::StringExecFns;

use crate::fir::{
    CallableDecl, ExprId, ExprKind, ExprKindV, Field, Functor, ItemId, ItemKind, Lit, LocalItemId,
    LocalVarId, Measured, Package, PackageId, PackageStore, PackageV, Pat, PatId, PatKind, Pauli,
    Prim, Res, Ty, TyV, UnOp,
};
use crate::index_map::{keys_in_order, lemma_keys_below};
use crate::text::{
    append_decimal, append_signed_decimal, contains_text, count_lines_starting_with,
    count_starting_with, decimal, dedup_texts, has_text, join, joined, lines, same_text,
    signed_decimal, sort_texts, sorted, texts, without_repeats,
};
use crate::walk::{
    body_nodes, callable_nodes, lemma_node_ok_deeper, lemma_walk_all_ok, pat_ok, Node,
};

verus! {

/// The name of a primitive type.
pub open spec fn prim_text(prim: Prim) -> Seq<char> {
    match prim {
        Prim::BigInt => "BigInt"@,
        Prim::Bool => "Bool"@,
        Prim::Double => "Double"@,
        Prim::Int => "Int"@,
        Prim::Pauli => "Pauli"@,
        Prim::Qubit => "Qubit"@,
        Prim::Range => "Range"@,
        Prim::RangeFrom => "RangeFrom"@,
        Prim::RangeFull => "RangeFull"@,
        Prim::RangeTo => "RangeTo"@,
        Prim::Result => "Result"@,
        Prim::String => "String"@,
    }
}

/// A type as source text.
pub open spec fn ty_text(ty: TyV) -> Seq<char>
    decreases ty,
{
    match ty {
        TyV::Array(elem) => ty_text(*elem) + "[]"@,
        TyV::Prim(prim) => prim_text(prim),
        TyV::Tuple(elems) => if elems.len() == 0 {
            "Unit"@
        } else if elems.len() == 1 {
            "("@ + joined(ty_texts(elems), ", "@) + ",)"@
        } else {
            "("@ + joined(ty_texts(elems), ", "@) + ")"@
        },
        TyV::Named(name) => name,
    }
}

/// Several types, one after the other.
pub open spec fn ty_texts(tys: Seq<TyV>) -> Seq<Seq<char>>
    decreases tys,
{
    if tys.len() == 0 {
        seq![]
    } else {
        ty_texts(tys.drop_last()).push(ty_text(tys.last()))
    }
}

/// A pattern with the names and the types that it binds.
pub open spec fn pat_text(pats: Map<usize, Pat>, id: PatId, depth: nat) -> Seq<char>
    decreases depth, 0nat,
{
    if depth == 0 {
        seq![]
    } else {
        match pats[id.0].kind {
            PatKind::Bind(ident) => "Bind("@ + ident.name@ + ": "@ + ty_text(pats[id.0].ty@)
                + ")"@,
            PatKind::Discard => "Discard("@ + ty_text(pats[id.0].ty@) + ")"@,
            PatKind::Tuple(subs) => "Tuple("@ + joined(
                pat_texts(pats, subs@, (depth - 1) as nat),
                ", "@,
            ) + ")"@,
        }
    }
}

/// Several patterns, one after the other.
pub open spec fn pat_texts(pats: Map<usize, Pat>, ids: Seq<PatId>, depth: nat) -> Seq<Seq<char>>
    decreases depth, ids.len(),
{
    if ids.len() == 0 {
        seq![]
    } else {
        pat_texts(pats, ids.drop_last(), depth).push(pat_text(pats, ids.last(), depth))
    }
}

fn prim_name(prim: Prim) -> (r: &'static str)
    ensures
        r@ == prim_text(prim),
{
    match prim {
        Prim::BigInt => "BigInt",
        Prim::Bool => "Bool",
        Prim::Double => "Double",
        Prim::Int => "Int",
        Prim::Pauli => "Pauli",
        Prim::Qubit => "Qubit",
        Prim::Range => "Range",
        Prim::RangeFrom => "RangeFrom",
        Prim::RangeFull => "RangeFull",
        Prim::RangeTo => "RangeTo",
        Prim::Result => "Result",
        Prim::String => "String",
    }
}

/// A type as source text.
pub fn format_ty(ty: &Ty) -> (r: String)
    ensures
        r@ == ty_text(ty@),
    decreases ty,
{
    match ty {
        Ty::Array(elem) => {
            let mut r = format_ty(&**elem);
            r.append("[]");
            r
        },
        Ty::Prim(prim) => String::from_str(prim_name(*prim)),
        Ty::Tuple(elems) => {
            let ghost tys = ty@->Tuple_0;
            let mut parts: Vec<String> = Vec::new();
            let mut i: usize = 0;
            while i < elems.len()
                invariant
                    i <= elems@.len(),
                    *ty == Ty::Tuple(*elems),
                    tys.len() == elems@.len(),
                    forall|j: int| 0 <= j < elems@.len() ==> #[trigger] tys[j] == elems@[j]@,
                    texts(parts@) == ty_texts(tys.take(i as int)),
                decreases elems@.len() - i,
            {
                let elem: &Ty = &elems[i];
                assert(decreases_to!(ty => ty->Tuple_0@[i as int]));
                let part = format_ty(elem);
                let ghost before = parts@;
                parts.push(part);
                assert(texts(parts@) =~= texts(before).push(part@));
                assert(tys.take(i + 1).drop_last() =~= tys.take(i as int));
                i = i + 1;
            }
            assert(tys.take(i as int) =~= tys);
            if elems.len() == 0 {
                return String::from_str("Unit");
            }
            let mut r = String::from_str("(");
            r.append(join(&parts, ", ").as_str());
            if elems.len() == 1 {
                r.append(",)");
            } else {
                r.append(")");
            }
            r
        },
        Ty::Named(name) => name.clone(),
    }
}

fn pat_text_of(package: &Package, pat_id: PatId, Ghost(depth): Ghost<nat>) -> (r: String)
    requires
        pat_ok(package@.pats, pat_id, depth),
    ensures
        r@ == pat_text(package@.pats, pat_id, depth),
    decreases depth,
{
    let pat = package.get_pat(pat_id);
    match &pat.kind {
        PatKind::Bind(ident) => {
            let mut r = String::from_str("Bind(");
            r.append(ident.name.as_str());
            r.append(": ");
            r.append(format_ty(&pat.ty).as_str());
            r.append(")");
            r
        },
        PatKind::Discard => {
            let mut r = String::from_str("Discard(");
            r.append(format_ty(&pat.ty).as_str());
            r.append(")");
            r
        },
        PatKind::Tuple(subs) => {
            let mut parts: Vec<String> = Vec::new();
            let mut i: usize = 0;
            while i < subs.len()
                invariant
                    i <= subs@.len(),
                    depth > 0,
                    forall|j: int|
                        0 <= j < subs@.len() ==> pat_ok(
                            package@.pats,
                            #[trigger] subs@[j],
                            (depth - 1) as nat,
                        ),
                    texts(parts@) == pat_texts(
                        package@.pats,
                        subs@.take(i as int),
                        (depth - 1) as nat,
                    ),
                decreases subs@.len() - i,
            {
                assert(subs@.take(i + 1).drop_last() =~= subs@.take(i as int));
                let part = pat_text_of(package, subs[i], Ghost((depth - 1) as nat));
                let ghost before = parts@;
                parts.push(part);
                assert(texts(parts@) =~= texts(before).push(part@));
                i = i + 1;
            }
            assert(subs@.take(i as int) =~= subs@);
            let mut r = String::from_str("Tuple(");
            r.append(join(&parts, ", ").as_str());
            r.append(")");
            r
        },
    }
}

/// A pattern with the names and the types that it binds, such as
/// `Tuple(Bind(p_0: Int), Discard(Int))`.
pub fn format_pat(package: &Package, pat_id: PatId) -> (r: String)
    requires
        pat_ok(package@.pats, pat_id, package@.pat_depth()),
    ensures
        r@ == pat_text(package@.pats, pat_id, package@.pat_depth()),
{
    pat_text_of(package, pat_id, Ghost(package@.pat_depth()))
}

/// Calls `insert` of `rustc_hash::FxHashMap`, the standard hash map over the fixed, unseeded
/// hasher of that crate. Afterwards the map holds the value under the key and is otherwise as it
/// was; the result is the value that the key had.
#[verifier::external_body]
fn fx_insert_name(map: &mut FxHashMap<usize, String>, key: usize, value: String) -> (r: Option<
    String,
>)
    ensures
        final(map)@ == old(map)@.insert(key, value),
        r == (if old(map)@.contains_key(key) {
            Some(old(map)@[key])
        } else {
            None
        }),
{
    map.insert(key, value)
}

/// Calls `get` of `rustc_hash::FxHashMap`: the value under the key, if the map holds one.
#[verifier::external_body]
fn fx_get_name(map: &FxHashMap<usize, String>, key: usize) -> (r: Option<&String>)
    ensures
        r == (if map@.contains_key(key) {
            Some(&map@[key])
        } else {
            None
        }),
{
    map.get(&key)
}

/// The names of local variables.
pub struct LocalNames {
    /// The name of each variable, by the number of its identifier.
    pub map: FxHashMap<usize, String>,
}

impl LocalNames {
    /// The name of each variable.
    pub open spec fn view(&self) -> Map<usize, Seq<char>> {
        self.map@.map_values(|s: String| s@)
    }
}

/// The names that the given patterns bind; a later pattern wins over an earlier one.
pub open spec fn bound_names(pats: Map<usize, Pat>, ids: Seq<usize>) -> Map<usize, Seq<char>>
    decreases ids.len(),
{
    if ids.len() == 0 {
        Map::empty()
    } else {
        match pats[ids.last()].kind {
            PatKind::Bind(ident) => bound_names(pats, ids.drop_last()).insert(
                ident.id.0,
                ident.name@,
            ),
            _ => bound_names(pats, ids.drop_last()),
        }
    }
}

/// The names that the patterns of a package bind.
pub open spec fn package_names(p: PackageV) -> Map<usize, Seq<char>> {
    bound_names(p.pats, keys_in_order(p.pats.dom()))
}

/// The names of the local variables of a package.
pub fn local_names(package: &Package) -> (r: LocalNames)
    ensures
        r@ == package_names(package@),
{
    let mut names = LocalNames { map: FxHashMap::default() };
    let ids = package.pats.keys();
    proof {
        lemma_keys_below(package@.pats.dom(), usize::MAX as nat + 1);
        assert(names@ =~= Map::empty());
    }
    let mut i: usize = 0;
    while i < ids.len()
        invariant
            i <= ids@.len(),
            forall|k: usize| #[trigger] ids@.contains(k) ==> package@.pats.contains_key(k),
            names@ == bound_names(package@.pats, ids@.take(i as int)),
        decreases ids@.len() - i,
    {
        assert(ids@.take(i + 1).drop_last() =~= ids@.take(i as int));
        assert(ids@.contains(ids@[i as int]));
        if let PatKind::Bind(ident) = &package.get_pat(PatId(ids[i])).kind {
            let ghost before = names@;
            let _ = fx_insert_name(&mut names.map, ident.id.0, ident.name.clone());
            assert(names@ =~= before.insert(ident.id.0, ident.name@));
        }
        i = i + 1;
    }
    assert(ids@.take(i as int) =~= ids@);
    names
}

/// The item behind a name, if it is a callable of this package; otherwise its identifier.
pub open spec fn item_text(p: PackageV, id: ItemId) -> Seq<char> {
    match p.items[id.item.0].kind {
        ItemKind::Callable(decl) if p.items.contains_key(id.item.0) => decl.name.name@,
        _ => "ItemId { package: PackageId("@ + decimal(id.package.0 as nat)
            + "), item: LocalItemId("@ + decimal(id.item.0 as nat) + ") }"@,
    }
}

/// The name of a callable item of the package; the identifier where there is no such callable.
pub fn item_name(package: &Package, item_id: &ItemId) -> (r: String)
    ensures
        r@ == item_text(package@, *item_id),
{
    if let Some(item) = package.items.get(item_id.item.0) {
        if let ItemKind::Callable(decl) = &item.kind {
            return decl.name.name.clone();
        }
    }
    let mut r = String::from_str("ItemId { package: PackageId(");
    append_decimal(&mut r, item_id.package.0);
    r.append("), item: LocalItemId(");
    append_decimal(&mut r, item_id.item.0);
    r.append(") }");
    r
}

/// A positional path, each index after a dot.
pub open spec fn path_text(path: Seq<usize>) -> Seq<char>
    decreases path.len(),
{
    if path.len() == 0 {
        seq![]
    } else {
        path_text(path.drop_last()) + "."@ + decimal(path.last() as nat)
    }
}

fn append_path(out: &mut String, path: &Vec<usize>)
    ensures
        final(out)@ == old(out)@ + path_text(path@),
{
    let mut i: usize = 0;
    assert(path_text(path@.take(0)) =~= seq![]);
    while i < path.len()
        invariant
            i <= path@.len(),
            out@ == old(out)@ + path_text(path@.take(i as int)),
        decreases path@.len() - i,
    {
        assert(path@.take(i + 1).drop_last() =~= path@.take(i as int));
        out.append(".");
        append_decimal(out, path[i]);
        assert(out@ =~= old(out)@ + path_text(path@.take(i + 1)));
        i = i + 1;
    }
    assert(path@.take(i as int) =~= path@);
}

/// A literal with its kind.
pub open spec fn lit_text(lit: Lit) -> Seq<char> {
    match lit {
        Lit::BigInt(text) => "BigInt("@ + text@ + ")"@,
        Lit::Bool(true) => "Bool(true)"@,
        Lit::Bool(false) => "Bool(false)"@,
        Lit::Double(text) => "Double("@ + text@ + ")"@,
        Lit::Imaginary(text) => "Imaginary("@ + text@ + ")"@,
        Lit::Int(n) => "Int("@ + signed_decimal(n as int) + ")"@,
        Lit::Pauli(Pauli::I) => "Pauli(I)"@,
        Lit::Pauli(Pauli::X) => "Pauli(X)"@,
        Lit::Pauli(Pauli::Y) => "Pauli(Y)"@,
        Lit::Pauli(Pauli::Z) => "Pauli(Z)"@,
        Lit::Result(Measured::Zero) => "Result(Zero)"@,
        Lit::Result(Measured::One) => "Result(One)"@,
    }
}

fn format_lit(lit: &Lit) -> (r: String)
    ensures
        r@ == lit_text(*lit),
{
    match lit {
        Lit::BigInt(text) => {
            let mut r = String::from_str("BigInt(");
            r.append(text.as_str());
            r.append(")");
            r
        },
        Lit::Bool(b) => if *b {
            String::from_str("Bool(true)")
        } else {
            String::from_str("Bool(false)")
        },
        Lit::Double(text) => {
            let mut r = String::from_str("Double(");
            r.append(text.as_str());
            r.append(")");
            r
        },
        Lit::Imaginary(text) => {
            let mut r = String::from_str("Imaginary(");
            r.append(text.as_str());
            r.append(")");
            r
        },
        Lit::Int(n) => {
            let mut r = String::from_str("Int(");
            append_signed_decimal(&mut r, *n);
            r.append(")");
            r
        },
        Lit::Pauli(Pauli::I) => String::from_str("Pauli(I)"),
        Lit::Pauli(Pauli::X) => String::from_str("Pauli(X)"),
        Lit::Pauli(Pauli::Y) => String::from_str("Pauli(Y)"),
        Lit::Pauli(Pauli::Z) => String::from_str("Pauli(Z)"),
        Lit::Result(Measured::Zero) => String::from_str("Result(Zero)"),
        Lit::Result(Measured::One) => String::from_str("Result(One)"),
    }
}

/// A unary operator.
pub open spec fn op_text(op: UnOp) -> Seq<char> {
    match op {
        UnOp::Functor(Functor::Adj) => "Functor(Adj)"@,
        UnOp::Functor(Functor::Ctl) => "Functor(Ctl)"@,
        UnOp::Neg => "Neg"@,
        UnOp::NotB => "NotB"@,
        UnOp::NotL => "NotL"@,
        UnOp::Pos => "Pos"@,
        UnOp::Unwrap => "Unwrap"@,
    }
}

fn op_name(op: UnOp) -> (r: &'static str)
    ensures
        r@ == op_text(op),
{
    match op {
        UnOp::Functor(Functor::Adj) => "Functor(Adj)",
        UnOp::Functor(Functor::Ctl) => "Functor(Ctl)",
        UnOp::Neg => "Neg",
        UnOp::NotB => "NotB",
        UnOp::NotL => "NotL",
        UnOp::Pos => "Pos",
        UnOp::Unwrap => "Unwrap",
    }
}

/// The kind of an expression, with the length of an array or a tuple.
pub open spec fn short_text(kind: ExprKindV) -> Seq<char> {
    match kind {
        ExprKindV::Var(_, _) => "Var"@,
        ExprKindV::Field(_, _) => "Field"@,
        ExprKindV::Other(kind) => match kind {
            ExprKind::Array(es) => "Array(len="@ + decimal(es@.len()) + ")"@,
            ExprKind::ArrayLit(es) => "ArrayLit(len="@ + decimal(es@.len()) + ")"@,
            ExprKind::ArrayRepeat(_, _) => "ArrayRepeat"@,
            ExprKind::Assign(_, _) => "Assign"@,
            ExprKind::AssignField(_, _, _) => "AssignField"@,
            ExprKind::AssignIndex(_, _, _) => "AssignIndex"@,
            ExprKind::AssignOp(_, _, _) => "AssignOp"@,
            ExprKind::BinOp(_, _, _) => "BinOp"@,
            ExprKind::Block(_) => "Block"@,
            ExprKind::Call(_, _) => "Call"@,
            ExprKind::Closure(_, _) => "Closure"@,
            ExprKind::Fail(_) => "Fail"@,
            ExprKind::Field(_, _) => "Field"@,
            ExprKind::Hole => "Hole"@,
            ExprKind::If(_, _, _) => "If"@,
            ExprKind::Index(_, _) => "Index"@,
            ExprKind::Lit(_) => "Lit"@,
            ExprKind::Range(_, _, _) => "Range"@,
            ExprKind::Return(_) => "Return"@,
            ExprKind::String(_) => "String"@,
            ExprKind::Struct(_, _, _) => "Struct"@,
            ExprKind::Tuple(es) => "Tuple(len="@ + decimal(es@.len()) + ")"@,
            ExprKind::UnOp(_, _) => "UnOp"@,
            ExprKind::UpdateField(_, _, _) => "UpdateField"@,
            ExprKind::UpdateIndex(_, _, _) => "UpdateIndex"@,
            ExprKind::Var(_, _) => "Var"@,
            ExprKind::While(_, _) => "While"@,
        },
    }
}

fn with_length(name: &str, n: usize) -> (r: String)
    ensures
        r@ == name@ + decimal(n as nat) + ")"@,
{
    let mut r = String::from_str(name);
    append_decimal(&mut r, n);
    r.append(")");
    r
}

/// The kind of an expression, with the length of an array or a tuple.
pub fn expr_kind_short(package: &Package, expr_id: ExprId) -> (r: String)
    requires
        package@.exprs.contains_key(expr_id.0),
    ensures
        r@ == short_text(package@.exprs[expr_id.0].kind),
{
    match &package.get_expr(expr_id).kind {
        ExprKind::Array(es) => with_length("Array(len=", es.len()),
        ExprKind::ArrayLit(es) => with_length("ArrayLit(len=", es.len()),
        ExprKind::ArrayRepeat(_, _) => String::from_str("ArrayRepeat"),
        ExprKind::Assign(_, _) => String::from_str("Assign"),
        ExprKind::AssignField(_, _, _) => String::from_str("AssignField"),
        ExprKind::AssignIndex(_, _, _) => String::from_str("AssignIndex"),
        ExprKind::AssignOp(_, _, _) => String::from_str("AssignOp"),
        ExprKind::BinOp(_, _, _) => String::from_str("BinOp"),
        ExprKind::Block(_) => String::from_str("Block"),
        ExprKind::Call(_, _) => String::from_str("Call"),
        ExprKind::Closure(_, _) => String::from_str("Closure"),
        ExprKind::Fail(_) => String::from_str("Fail"),
        ExprKind::Field(_, _) => String::from_str("Field"),
        ExprKind::Hole => String::from_str("Hole"),
        ExprKind::If(_, _, _) => String::from_str("If"),
        ExprKind::Index(_, _) => String::from_str("Index"),
        ExprKind::Lit(_) => String::from_str("Lit"),
        ExprKind::Range(_, _, _) => String::from_str("Range"),
        ExprKind::Return(_) => String::from_str("Return"),
        ExprKind::String(_) => String::from_str("String"),
        ExprKind::Struct(_, _, _) => String::from_str("Struct"),
        ExprKind::Tuple(es) => with_length("Tuple(len=", es.len()),
        ExprKind::UnOp(_, _) => String::from_str("UnOp"),
        ExprKind::UpdateField(_, _, _) => String::from_str("UpdateField"),
        ExprKind::UpdateIndex(_, _, _) => String::from_str("UpdateIndex"),
        ExprKind::Var(_, _) => String::from_str("Var"),
        ExprKind::While(_, _) => String::from_str("While"),
    }
}

/// An operand of a call: names, literals, tuples, operators and projections spelled out, anything
/// else by its kind.
pub open spec fn operand_text(
    p: PackageV,
    names: Map<usize, Seq<char>>,
    e: ExprId,
    depth: nat,
) -> Seq<char>
    decreases depth, 0nat,
{
    if depth == 0 {
        seq![]
    } else {
        match p.exprs[e.0].kind {
            ExprKindV::Field(record, path) => operand_text(p, names, record, (depth - 1) as nat)
                + path_text(path),
            ExprKindV::Var(Res::Item(id), _) => item_text(p, id),
            ExprKindV::Var(Res::Local(id), _) => if names.contains_key(id.0) {
                names[id.0]
            } else {
                "LocalVarId("@ + decimal(id.0 as nat) + ")"@
            },
            ExprKindV::Other(ExprKind::Lit(lit)) => lit_text(lit),
            ExprKindV::Other(ExprKind::Tuple(items)) => "("@ + joined(
                operand_texts(p, names, items@, (depth - 1) as nat),
                ", "@,
            ) + ")"@,
            ExprKindV::Other(ExprKind::UnOp(op, operand)) => op_text(op) + "("@ + operand_text(
                p,
                names,
                operand,
                (depth - 1) as nat,
            ) + ")"@,
            kind => short_text(kind),
        }
    }
}

/// Several operands, one after the other.
pub open spec fn operand_texts(
    p: PackageV,
    names: Map<usize, Seq<char>>,
    es: Seq<ExprId>,
    depth: nat,
) -> Seq<Seq<char>>
    decreases depth, es.len(),
{
    if es.len() == 0 {
        seq![]
    } else {
        operand_texts(p, names, es.drop_last(), depth).push(
            operand_text(p, names, es.last(), depth),
        )
    }
}

fn operand_text_of(
    package: &Package,
    names: &LocalNames,
    expr_id: ExprId,
    Ghost(depth): Ghost<nat>,
) -> (r: String)
    requires
        package@.node_ok(Node::Expr(expr_id), depth),
    ensures
        r@ == operand_text(package@, names@, expr_id, depth),
    decreases depth,
{
    let ghost p = package@;
    let ghost node = Node::Expr(expr_id);
    match &package.get_expr(expr_id).kind {
        ExprKind::Field(record_id, Field::Path(path)) => {
            assert(p.node_ok(p.parts(node)[0], (depth - 1) as nat));
            let mut r = operand_text_of(package, names, *record_id, Ghost((depth - 1) as nat));
            append_path(&mut r, &path.indices);
            r
        },
        ExprKind::Lit(lit) => format_lit(lit),
        ExprKind::Tuple(items) => {
            let mut parts: Vec<String> = Vec::new();
            let mut i: usize = 0;
            assert forall|j: int| 0 <= j < items@.len() implies p.node_ok(
                Node::Expr(#[trigger] items@[j]),
                (depth - 1) as nat,
            ) by {
                assert(p.node_ok(p.parts(node)[j], (depth - 1) as nat));
            }
            while i < items.len()
                invariant
                    i <= items@.len(),
                    depth > 0,
                    p == package@,
                    forall|j: int|
                        0 <= j < items@.len() ==> p.node_ok(
                            Node::Expr(#[trigger] items@[j]),
                            (depth - 1) as nat,
                        ),
                    texts(parts@) == operand_texts(
                        p,
                        names@,
                        items@.take(i as int),
                        (depth - 1) as nat,
                    ),
                decreases items@.len() - i,
            {
                assert(items@.take(i + 1).drop_last() =~= items@.take(i as int));
                let part = operand_text_of(package, names, items[i], Ghost((depth - 1) as nat));
                let ghost before = parts@;
                parts.push(part);
                assert(texts(parts@) =~= texts(before).push(part@));
                i = i + 1;
            }
            assert(items@.take(i as int) =~= items@);
            let mut r = String::from_str("(");
            r.append(join(&parts, ", ").as_str());
            r.append(")");
            r
        },
        ExprKind::UnOp(op, operand_id) => {
            assert(p.node_ok(p.parts(node)[0], (depth - 1) as nat));
            let mut r = String::from_str(op_name(*op));
            r.append("(");
            let operand = operand_text_of(
                package,
                names,
                *operand_id,
                Ghost((depth - 1) as nat),
            );
            r.append(operand.as_str());
            r.append(")");
            r
        },
        ExprKind::Var(Res::Item(item_id), _) => item_name(package, item_id),
        ExprKind::Var(Res::Local(local_id), _) => match fx_get_name(&names.map, local_id.0) {
            Some(name) => name.clone(),
            None => with_length("LocalVarId(", local_id.0),
        },
        _ => expr_kind_short(package, expr_id),
    }
}

/// An operand of a call: names, literals, tuples, operators and projections spelled out, anything
/// else by its kind.
pub fn format_call_operand(package: &Package, names: &LocalNames, expr_id: ExprId) -> (r: String)
    requires
        package@.node_ok(Node::Expr(expr_id), package@.node_depth()),
    ensures
        r@ == operand_text(package@, names@, expr_id, package@.node_depth()),
{
    operand_text_of(package, names, expr_id, Ghost(package@.node_depth()))
}

/// The first callable of that name among the given items.
pub open spec fn first_named(p: PackageV, items: Seq<usize>, name: Seq<char>) -> Option<
    CallableDecl,
>
    decreases items.len(),
{
    if items.len() == 0 {
        None
    } else {
        match first_named(p, items.drop_last(), name) {
            Some(decl) => Some(decl),
            None => match p.items[items.last()].kind {
                ItemKind::Callable(decl) if decl.name.name@ == name => Some(*decl),
                _ => None,
            },
        }
    }
}

/// The callable of that name; the first one where there are several.
pub open spec fn callable_named(p: PackageV, name: Seq<char>) -> Option<CallableDecl> {
    first_named(p, keys_in_order(p.items.dom()), name)
}

/// Whether there is a callable of that name and it is whole.
pub open spec fn is_whole_callable(p: PackageV, name: Seq<char>) -> bool {
    callable_named(p, name) matches Some(decl) && p.callable_ok(decl)
}

/// The callable of that name; the first one where there are several.
pub fn find_callable<'a>(package: &'a Package, name: &str) -> (r: Option<&'a CallableDecl>)
    ensures
        match r {
            Some(decl) => callable_named(package@, name@) == Some(*decl),
            None => callable_named(package@, name@) is None,
        },
{
    let items = package.items.keys();
    proof {
        lemma_keys_below(package@.items.dom(), usize::MAX as nat + 1);
    }
    let mut i: usize = 0;
    let mut found: Option<&CallableDecl> = None;
    while i < items.len()
        invariant
            i <= items@.len(),
            forall|k: usize| #[trigger] items@.contains(k) ==> package@.items.contains_key(k),
            match found {
                Some(decl) => first_named(package@, items@.take(i as int), name@) == Some(*decl),
                None => first_named(package@, items@.take(i as int), name@) is None,
            },
        decreases items@.len() - i,
    {
        assert(items@.take(i + 1).drop_last() =~= items@.take(i as int));
        assert(items@.contains(items@[i as int]));
        if found.is_none() {
            if let ItemKind::Callable(decl) = &package.get_item(LocalItemId(items[i])).kind {
                if same_text(decl.name.name.as_str(), name) {
                    found = Some(&**decl);
                }
            }
        }
        i = i + 1;
    }
    assert(items@.take(i as int) =~= items@);
    found
}

/// The calls among the given nodes, in order: what is called, and the argument in round brackets.
pub open spec fn call_texts(p: PackageV, nodes: Seq<Node>) -> Seq<Seq<char>>
    decreases nodes.len(),
{
    if nodes.len() == 0 {
        seq![]
    } else {
        let before = call_texts(p, nodes.drop_last());
        match nodes.last() {
            Node::Expr(e) => match p.exprs[e.0].kind {
                ExprKindV::Other(ExprKind::Call(callee, arg)) => before.push(
                    operand_text(p, package_names(p), callee, p.node_depth()) + "("@
                        + operand_text(p, package_names(p), arg, p.node_depth()) + ")"@,
                ),
                _ => before,
            },
            _ => before,
        }
    }
}

/// The projections among the given nodes, in order.
pub open spec fn projection_texts(p: PackageV, nodes: Seq<Node>) -> Seq<Seq<char>>
    decreases nodes.len(),
{
    if nodes.len() == 0 {
        seq![]
    } else {
        let before = projection_texts(p, nodes.drop_last());
        match nodes.last() {
            Node::Expr(e) if p.exprs[e.0].kind is Field => before.push(
                operand_text(p, package_names(p), e, p.node_depth()),
            ),
            _ => before,
        }
    }
}

/// The calls in a callable, one on each line, in walking order.
pub open spec fn call_shapes(p: PackageV, callable_name: Seq<char>) -> Seq<char> {
    joined(
        call_texts(p, p.callable_walk(callable_named(p, callable_name)->0.implementation)),
        "\n"@,
    )
}

/// The calls in a callable, one on each line, in walking order: what is called, and the argument
/// in round brackets.
pub fn extract_call_shapes(store: &PackageStore, package_id: PackageId, callable_name: &str) -> (r:
    String)
    requires
        store@.contains_key(package_id.0),
        is_whole_callable(store@[package_id.0], callable_name@),
    ensures
        r@ == call_shapes(store@[package_id.0], callable_name@),
{
    let package = store.get(package_id);
    let ghost p = package@;
    let names = local_names(package);
    let callable = find_callable(package, callable_name).unwrap();
    proof {
        lemma_walk_all_ok(p, body_nodes(callable.implementation), p.node_depth());
    }
    let nodes = callable_nodes(package, callable);
    let mut calls: Vec<String> = Vec::new();
    let mut i: usize = 0;
    while i < nodes.len()
        invariant
            i <= nodes@.len(),
            p == package@,
            names@ == package_names(p),
            forall|j: int|
                0 <= j < nodes@.len() ==> p.node_ok(#[trigger] nodes@[j], p.node_depth()),
            texts(calls@) == call_texts(p, nodes@.take(i as int)),
        decreases nodes@.len() - i,
    {
        assert(nodes@.take(i + 1).drop_last() =~= nodes@.take(i as int));
        if let Node::Expr(expr_id) = nodes[i] {
            if let ExprKind::Call(callee_id, arg_id) = &package.get_expr(expr_id).kind {
                proof {
                    let node = nodes@[i as int];
                    let inner = (p.node_depth() - 1) as nat;
                    assert(p.parts(node)[0] == Node::Expr(*callee_id));
                    assert(p.parts(node)[1] == Node::Expr(*arg_id));
                    lemma_node_ok_deeper(p, Node::Expr(*callee_id), inner, p.node_depth());
                    lemma_node_ok_deeper(p, Node::Expr(*arg_id), inner, p.node_depth());
                }
                let mut call = format_call_operand(package, &names, *callee_id);
                call.append("(");
                call.append(format_call_operand(package, &names, *arg_id).as_str());
                call.append(")");
                let ghost before = calls@;
                calls.push(call);
                assert(texts(calls@) =~= texts(before).push(call@));
            }
        }
        i = i + 1;
    }
    assert(nodes@.take(i as int) =~= nodes@);
    join(&calls, "\n")
}

/// The projections in a callable, each once, sorted, one on each line.
pub fn extract_field_access_shapes(
    store: &PackageStore,
    package_id: PackageId,
    callable_name: &str,
) -> (r: String)
    requires
        store@.contains_key(package_id.0),
        is_whole_callable(store@[package_id.0], callable_name@),
    ensures
        ({
            let p = store@[package_id.0];
            let decl = callable_named(p, callable_name@)->0;
            r@ == joined(
                without_repeats(
                    sorted(projection_texts(p, p.callable_walk(decl.implementation))),
                ),
                "\n"@,
            )
        }),
{
    let package = store.get(package_id);
    let ghost p = package@;
    let names = local_names(package);
    let callable = find_callable(package, callable_name).unwrap();
    proof {
        lemma_walk_all_ok(p, body_nodes(callable.implementation), p.node_depth());
    }
    let nodes = callable_nodes(package, callable);
    let mut accesses: Vec<String> = Vec::new();
    let mut i: usize = 0;
    while i < nodes.len()
        invariant
            i <= nodes@.len(),
            p == package@,
            names@ == package_names(p),
            forall|j: int|
                0 <= j < nodes@.len() ==> p.node_ok(#[trigger] nodes@[j], p.node_depth()),
            texts(accesses@) == projection_texts(p, nodes@.take(i as int)),
        decreases nodes@.len() - i,
    {
        assert(nodes@.take(i + 1).drop_last() =~= nodes@.take(i as int));
        if let Node::Expr(expr_id) = nodes[i] {
            if let ExprKind::Field(_, Field::Path(_)) = &package.get_expr(expr_id).kind {
                let access = format_call_operand(package, &names, expr_id);
                let ghost before = accesses@;
                accesses.push(access);
                assert(texts(accesses@) =~= texts(before).push(access@));
            }
        }
        i = i + 1;
    }
    assert(nodes@.take(i as int) =~= nodes@);
    join(&dedup_texts(&sort_texts(&accesses)), "\n")
}

/// Whether the callable has as many calls as expected whose shape starts with `line_prefix`.
pub fn assert_call_shape_count(
    store: &PackageStore,
    package_id: PackageId,
    callable_name: &str,
    line_prefix: &str,
    expected_count: usize,
) -> (r: bool)
    requires
        store@.contains_key(package_id.0),
        is_whole_callable(store@[package_id.0], callable_name@),
    ensures
        r == (count_starting_with(
            lines(call_shapes(store@[package_id.0], callable_name@)),
            line_prefix@,
        ) == expected_count),
{
    let shapes = extract_call_shapes(store, package_id, callable_name);
    count_lines_starting_with(shapes.as_str(), line_prefix) == expected_count
}

/// Whether `expected_line` stands in the shapes of the calls of the callable.
pub fn assert_call_shapes_contain(
    store: &PackageStore,
    package_id: PackageId,
    callable_name: &str,
    expected_line: &str,
) -> (r: bool)
    requires
        store@.contains_key(package_id.0),
        is_whole_callable(store@[package_id.0], callable_name@),
    ensures
        r == contains_text(call_shapes(store@[package_id.0], callable_name@), expected_line@),
{
    let shapes = extract_call_shapes(store, package_id, callable_name);
    has_text(shapes.as_str(), expected_line)
}

} // verus!
