//! Which items of a store can be reached from the entry expression of a package.

use rustc_hash::FxHashSet;
use vstd::prelude::*;

use crate::fir::{
    ExprKind, ExprKindV, ItemKind, LocalItemId, Package, PackageId, PackageStore, PackageV, Res,
    StoreItemId,
};
use crate::index_map::{keys_in_order, lemma_keys_below};
use crate::text::{join, joined, sort_texts, sorted, texts};
use crate::validity::{is_callable_ok, is_entry_ok};
use crate::walk::{body_nodes, callable_nodes, lemma_walk_all_ok, walk_nodes, Node};

verus! {

/// The hasher that `rustc_hash` gives its collections.
#[verifier::external_type_specification]
#[verifier::external_body]
pub struct ExFxBuildHasher(rustc_hash::FxBuildHasher);

/// Calls `insert` of `rustc_hash::FxHashSet`, the standard hash set over the fixed,
/// unseeded hasher of that crate. Afterwards the set holds the key besides what it held; the
/// result says whether the key is new.
#[verifier::external_body]
fn fx_insert(set: &mut FxHashSet<(usize, usize)>, key: (usize, usize)) -> (r: bool)
    ensures
        final(set)@ == old(set)@.insert(key),
        r == !old(set)@.contains(key),
{
    set.insert(key)
}

/// Calls `contains` of `rustc_hash::FxHashSet`: whether the set holds the key.
#[verifier::external_body]
fn fx_contains(set: &FxHashSet<(usize, usize)>, key: (usize, usize)) -> (r: bool)
    ensures
        r == set@.contains(key),
{
    set.contains(&key)
}

/// A set of items.
#[derive(Debug, PartialEq)]
pub struct ItemSet {
    /// The package and the item of each member.
    pub keys: FxHashSet<(usize, usize)>,
}

impl ItemSet {
    /// The members.
    pub open spec fn view(&self) -> Set<StoreItemId> {
        Set::new(|id: StoreItemId| self.keys@.contains((id.package.0, id.item.0)))
    }

    /// A set without members.
    pub fn new() -> (r: Self)
        ensures
            r@ == Set::<StoreItemId>::empty(),
    {
        let r = ItemSet { keys: FxHashSet::default() };
        assert(r@ =~= Set::<StoreItemId>::empty());
        r
    }

    /// Adds an item, and says whether it is new.
    pub fn insert(&mut self, id: StoreItemId) -> (r: bool)
        ensures
            final(self)@ == old(self)@.insert(id),
            r == !old(self)@.contains(id),
    {
        let r = fx_insert(&mut self.keys, (id.package.0, id.item.0));
        assert(self@ =~= old(self)@.insert(id));
        r
    }

    /// Whether the item is a member.
    pub fn contains(&self, id: &StoreItemId) -> (r: bool)
        ensures
            r == self@.contains(*id),
    {
        fx_contains(&self.keys, (id.package.0, id.item.0))
    }
}

/// The item that an expression in package `package` names: a variable that resolves to an item,
/// or the callable behind a closure.
pub open spec fn named_item(package: PackageId, kind: ExprKindV) -> Option<StoreItemId> {
    match kind {
        ExprKindV::Var(Res::Item(id), _) => Some(
            StoreItemId { package: id.package, item: id.item },
        ),
        ExprKindV::Other(ExprKind::Closure(_, item)) => Some(StoreItemId { package, item }),
        _ => None,
    }
}

/// Whether one of the nodes is an expression that names the item.
pub open spec fn nodes_name(
    p: PackageV,
    package: PackageId,
    nodes: Seq<Node>,
    id: StoreItemId,
) -> bool {
    exists|i: int|
        0 <= i < nodes.len() && (#[trigger] nodes[i] matches Node::Expr(e) && named_item(
            package,
            p.exprs[e.0].kind,
        ) == Some(id))
}

/// Whether the store has the item.
pub open spec fn item_exists(store: Map<usize, PackageV>, id: StoreItemId) -> bool {
    &&& store.contains_key(id.package.0)
    &&& store[id.package.0].items.contains_key(id.item.0)
}

/// Whether a specialization of the callable `user` names the item `id`, and the store has both.
pub open spec fn item_uses(
    store: Map<usize, PackageV>,
    user: StoreItemId,
    id: StoreItemId,
) -> bool {
    &&& item_exists(store, user)
    &&& item_exists(store, id)
    &&& store[user.package.0].items[user.item.0].kind matches ItemKind::Callable(decl)
        && nodes_name(
        store[user.package.0],
        user.package,
        store[user.package.0].callable_walk(decl.implementation),
        id,
    )
}

/// Whether the entry expression of the package names the item, and the store has it.
pub open spec fn entry_uses(
    store: Map<usize, PackageV>,
    package: PackageId,
    id: StoreItemId,
) -> bool {
    &&& item_exists(store, id)
    &&& store[package.0].entry matches Some(e) && nodes_name(
        store[package.0],
        package,
        store[package.0].walk_all(seq![Node::Expr(e)], store[package.0].node_depth()),
        id,
    )
}

/// Whether the item is where reaching starts: named by the entry expression, or a seed that
/// exists.
pub open spec fn is_root(
    store: Map<usize, PackageV>,
    package: PackageId,
    seeds: Seq<StoreItemId>,
    id: StoreItemId,
) -> bool {
    entry_uses(store, package, id) || (seeds.contains(id) && item_exists(store, id))
}

/// Whether the path starts at a root and each item on it uses the next.
pub open spec fn is_path(
    store: Map<usize, PackageV>,
    package: PackageId,
    seeds: Seq<StoreItemId>,
    path: Seq<StoreItemId>,
) -> bool {
    &&& path.len() > 0
    &&& is_root(store, package, seeds, path[0])
    &&& forall|i: int|
        0 <= i < path.len() - 1 ==> item_uses(store, #[trigger] path[i], path[i + 1])
}

/// Whether a path leads to the item.
#[verifier::opaque]
pub open spec fn is_reachable(
    store: Map<usize, PackageV>,
    package: PackageId,
    seeds: Seq<StoreItemId>,
    id: StoreItemId,
) -> bool {
    exists|path: Seq<StoreItemId>|
        #[trigger] is_path(store, package, seeds, path) && path.last() == id
}

/// The items that paths lead to.
pub open spec fn reachable_set(
    store: Map<usize, PackageV>,
    package: PackageId,
    seeds: Seq<StoreItemId>,
) -> Set<StoreItemId> {
    Set::new(|id: StoreItemId| is_reachable(store, package, seeds, id))
}

/// Whether the item is whole, if it is a callable.
pub open spec fn item_ok(store: Map<usize, PackageV>, id: StoreItemId) -> bool {
    item_exists(store, id) ==> (store[id.package.0].items[id.item.0].kind matches
        ItemKind::Callable(decl) ==> store[id.package.0].callable_ok(*decl))
}

/// Whether everything that reaching meets is whole: the package exists, and so does everything
/// that its entry expression and the callables that can be reached are made of.
pub open spec fn reach_ok(
    store: Map<usize, PackageV>,
    package: PackageId,
    seeds: Seq<StoreItemId>,
) -> bool {
    &&& store.contains_key(package.0)
    &&& store[package.0].entry_ok()
    &&& forall|id: StoreItemId| #[trigger]
        is_reachable(store, package, seeds, id) ==> item_ok(store, id)
}

/// What the entry expression names and the seeds that exist can be reached.
pub proof fn lemma_root_reachable(
    store: Map<usize, PackageV>,
    package: PackageId,
    seeds: Seq<StoreItemId>,
    id: StoreItemId,
)
    requires
        is_root(store, package, seeds, id),
    ensures
        is_reachable(store, package, seeds, id),
{
    reveal(is_reachable);
    assert(is_path(store, package, seeds, seq![id]));
}

/// Whatever a reachable callable uses can be reached too.
pub proof fn lemma_step_reachable(
    store: Map<usize, PackageV>,
    package: PackageId,
    seeds: Seq<StoreItemId>,
    user: StoreItemId,
    id: StoreItemId,
)
    requires
        is_reachable(store, package, seeds, user),
        item_uses(store, user, id),
    ensures
        is_reachable(store, package, seeds, id),
{
    reveal(is_reachable);
    let path = choose|path: Seq<StoreItemId>|
        #[trigger] is_path(store, package, seeds, path) && path.last() == user;
    let longer = path.push(id);
    assert forall|i: int| 0 <= i < longer.len() - 1 implies item_uses(
        store,
        #[trigger] longer[i],
        longer[i + 1],
    ) by {
        if i < path.len() - 1 {
            assert(longer[i] == path[i]);
        }
    }
    assert(is_path(store, package, seeds, longer));
}

/// A set that holds the roots, and with an item whatever that item uses, holds every item that
/// can be reached.
pub proof fn lemma_reachable_least(
    store: Map<usize, PackageV>,
    package: PackageId,
    seeds: Seq<StoreItemId>,
    set: Set<StoreItemId>,
)
    requires
        forall|id: StoreItemId| #[trigger]
            is_root(store, package, seeds, id) ==> set.contains(id),
        forall|user: StoreItemId, id: StoreItemId|
            set.contains(user) && #[trigger] item_uses(store, user, id) ==> set.contains(id),
    ensures
        reachable_set(store, package, seeds).subset_of(set),
{
    assert forall|id: StoreItemId| is_reachable(store, package, seeds, id) implies set.contains(
        id,
    ) by {
        reveal(is_reachable);
        let path = choose|path: Seq<StoreItemId>|
            #[trigger] is_path(store, package, seeds, path) && path.last() == id;
        lemma_path_in(store, package, seeds, set, path, path.len() - 1);
    }
}

proof fn lemma_path_in(
    store: Map<usize, PackageV>,
    package: PackageId,
    seeds: Seq<StoreItemId>,
    set: Set<StoreItemId>,
    path: Seq<StoreItemId>,
    i: int,
)
    requires
        is_path(store, package, seeds, path),
        0 <= i < path.len(),
        forall|id: StoreItemId| #[trigger]
            is_root(store, package, seeds, id) ==> set.contains(id),
        forall|user: StoreItemId, id: StoreItemId|
            set.contains(user) && #[trigger] item_uses(store, user, id) ==> set.contains(id),
    ensures
        set.contains(path[i]),
    decreases i,
{
    if i > 0 {
        lemma_path_in(store, package, seeds, set, path, i - 1);
        assert(item_uses(store, path[i - 1], path[i - 1 + 1]));
    }
}

/// Only items that exist can be reached.
pub proof fn lemma_reachable_exist(
    store: Map<usize, PackageV>,
    package: PackageId,
    seeds: Seq<StoreItemId>,
)
    ensures
        forall|id: StoreItemId| #[trigger]
            reachable_set(store, package, seeds).contains(id) ==> item_exists(store, id),
{
    let existing = Set::new(|id: StoreItemId| item_exists(store, id));
    lemma_reachable_least(store, package, seeds, existing);
    assert forall|id: StoreItemId| #[trigger]
        reachable_set(store, package, seeds).contains(id) implies item_exists(store, id) by {
        assert(existing.contains(id));
    }
}

/// More seeds reach more: seeds add to what can be reached without them, and take nothing away.
pub proof fn lemma_seeds_only_add(
    store: Map<usize, PackageV>,
    package: PackageId,
    fewer: Seq<StoreItemId>,
    seeds: Seq<StoreItemId>,
)
    requires
        forall|id: StoreItemId| #[trigger] fewer.contains(id) ==> seeds.contains(id),
    ensures
        reachable_set(store, package, fewer).subset_of(reachable_set(store, package, seeds)),
{
    let set = reachable_set(store, package, seeds);
    assert forall|id: StoreItemId| #[trigger]
        is_root(store, package, fewer, id) implies set.contains(id) by {
        assert(is_root(store, package, seeds, id));
        lemma_root_reachable(store, package, seeds, id);
    }
    assert forall|user: StoreItemId, id: StoreItemId|
        set.contains(user) && #[trigger] item_uses(store, user, id) implies set.contains(id) by {
        lemma_step_reachable(store, package, seeds, user, id);
    }
    lemma_reachable_least(store, package, fewer, set);
}

/// What can be reached already adds nothing as a seed.
pub proof fn lemma_reached_seeds_add_nothing(
    store: Map<usize, PackageV>,
    package: PackageId,
    seeds: Seq<StoreItemId>,
    more: Seq<StoreItemId>,
)
    requires
        forall|id: StoreItemId| #[trigger]
            more.contains(id) ==> reachable_set(store, package, seeds).contains(id),
    ensures
        reachable_set(store, package, seeds + more) == reachable_set(store, package, seeds),
{
    let set = reachable_set(store, package, seeds);
    let all = seeds + more;
    assert forall|id: StoreItemId| #[trigger] seeds.contains(id) implies all.contains(id) by {
        assert(all[seeds.index_of(id)] == id);
    }
    lemma_seeds_only_add(store, package, seeds, all);
    assert forall|id: StoreItemId| #[trigger]
        is_root(store, package, all, id) implies set.contains(id) by {
        if all.contains(id) && !seeds.contains(id) {
            let i = all.index_of(id);
            assert(i >= seeds.len()) by {
                if i < seeds.len() {
                    assert(seeds[i] == id);
                }
            }
            assert(more[i - seeds.len()] == id);
            assert(more.contains(id));
        }
        if !more.contains(id) {
            assert(is_root(store, package, seeds, id));
            lemma_root_reachable(store, package, seeds, id);
        }
    }
    assert forall|user: StoreItemId, id: StoreItemId|
        set.contains(user) && #[trigger] item_uses(store, user, id) implies set.contains(id) by {
        lemma_step_reachable(store, package, seeds, user, id);
    }
    lemma_reachable_least(store, package, all, set);
    assert(reachable_set(store, package, all) =~= set);
}

/// There are only so many item identifiers.
proof fn lemma_items_finite(set: Set<StoreItemId>)
    ensures
        set.finite(),
{
    let base: int = 0x1_0000_0000_0000_0000;
    let decode = |n: int|
        StoreItemId {
            package: PackageId((n / 0x1_0000_0000_0000_0000) as usize),
            item: LocalItemId((n % 0x1_0000_0000_0000_0000) as usize),
        };
    let codes = vstd::set_lib::set_int_range(0, 0x1_0000_0000_0000_0000 * base);
    vstd::set_lib::lemma_int_range(0, 0x1_0000_0000_0000_0000 * base);
    codes.lemma_map_finite(decode);
    assert forall|id: StoreItemId| set.contains(id) implies codes.map(decode).contains(id) by {
        let n = id.package.0 * 0x1_0000_0000_0000_0000 + id.item.0;
        assert(codes.contains(n));
        assert(decode(n) == id);
    }
    vstd::set_lib::lemma_set_subset_finite(codes.map(decode), set);
}

/// What holds while items are collected: `set` holds the roots and only items that can be
/// reached, and whatever an item of `set` uses is in `set` unless that item is still pending.
#[verifier::opaque]
spec fn in_progress(
    store: Map<usize, PackageV>,
    package: PackageId,
    seeds: Seq<StoreItemId>,
    set: Set<StoreItemId>,
    pending: Seq<StoreItemId>,
) -> bool {
    &&& forall|id: StoreItemId| #[trigger] is_root(store, package, seeds, id) ==> set.contains(id)
    &&& forall|id: StoreItemId| #[trigger]
        set.contains(id) ==> is_reachable(store, package, seeds, id) && item_exists(store, id)
    &&& forall|id: StoreItemId| #[trigger] pending.contains(id) ==> set.contains(id)
    &&& forall|user: StoreItemId, id: StoreItemId|
        set.contains(user) && !pending.contains(user) && #[trigger] item_uses(store, user, id)
            ==> set.contains(id)
}

/// Taking the last pending item and adding what it uses makes progress.
proof fn lemma_progress(
    store: Map<usize, PackageV>,
    package: PackageId,
    seeds: Seq<StoreItemId>,
    set1: Set<StoreItemId>,
    pending1: Seq<StoreItemId>,
    set2: Set<StoreItemId>,
    pending2: Seq<StoreItemId>,
)
    requires
        pending1.len() > 0,
        in_progress(store, package, seeds, set1, pending1),
        forall|id: StoreItemId| #[trigger]
            set2.contains(id) <==> set1.contains(id) || item_uses(store, pending1.last(), id),
        forall|id: StoreItemId| #[trigger]
            pending2.contains(id) ==> pending1.drop_last().contains(id) || set2.contains(id),
        forall|id: StoreItemId|
            pending1.drop_last().contains(id) || (set2.contains(id) && !set1.contains(id))
                ==> #[trigger] pending2.contains(id),
        set2 == set1 ==> pending2 == pending1.drop_last(),
    ensures
        in_progress(store, package, seeds, set2, pending2),
        set1.len() <= set2.len() <= Set::<StoreItemId>::full().len(),
        set1.len() == set2.len() ==> pending2.len() < pending1.len(),
{
    reveal(in_progress);
    let user = pending1.last();
    let rest = pending1.drop_last();
    let full = Set::<StoreItemId>::full();
    assert(pending1.contains(user));
    assert forall|x: StoreItemId| #[trigger]
        pending1.contains(x) <==> rest.contains(x) || x == user by {
        if rest.contains(x) {
            assert(pending1[rest.index_of(x)] == x);
        }
        if pending1.contains(x) && x != user {
            assert(rest[pending1.index_of(x)] == x);
        }
    }
    assert forall|id: StoreItemId| #[trigger] set2.contains(id) implies is_reachable(
        store,
        package,
        seeds,
        id,
    ) && item_exists(store, id) by {
        if !set1.contains(id) {
            lemma_step_reachable(store, package, seeds, user, id);
        }
    }
    assert forall|id: StoreItemId| #[trigger] pending2.contains(id) implies set2.contains(id) by {
        if rest.contains(id) {
            assert(pending1.contains(id));
        }
    }
    assert forall|u: StoreItemId, id: StoreItemId|
        set2.contains(u) && !pending2.contains(u) && #[trigger] item_uses(
            store,
            u,
            id,
        ) implies set2.contains(id) by {
        if u != user {
            assert(!rest.contains(u));
            assert(!pending1.contains(u));
        }
    }
    lemma_items_finite(set1);
    lemma_items_finite(set2);
    lemma_items_finite(full);
    vstd::set_lib::lemma_len_subset(set2, full);
    assert(set1.subset_of(set2));
    vstd::set_lib::lemma_len_subset(set1, set2);
    if set1.len() == set2.len() {
        vstd::set_lib::lemma_subset_equality(set1, set2);
    }
}

/// The items that the expressions among the nodes name, in order.
fn named_items(package: &Package, package_id: PackageId, nodes: &Vec<Node>) -> (r: Vec<StoreItemId>)
    requires
        forall|i: int| 0 <= i < nodes@.len() ==> package@.has(#[trigger] nodes@[i]),
    ensures
        forall|id: StoreItemId|
            r@.contains(id) <==> #[trigger] nodes_name(package@, package_id, nodes@, id),
{
    let mut r: Vec<StoreItemId> = Vec::new();
    let mut i: usize = 0;
    while i < nodes.len()
        invariant
            i <= nodes@.len(),
            forall|i: int| 0 <= i < nodes@.len() ==> package@.has(#[trigger] nodes@[i]),
            forall|id: StoreItemId|
                r@.contains(id) <==> #[trigger] nodes_name(
                    package@,
                    package_id,
                    nodes@.take(i as int),
                    id,
                ),
        decreases nodes@.len() - i,
    {
        let ghost before = r@;
        let ghost mut named: Option<StoreItemId> = None;
        if let Node::Expr(e) = nodes[i] {
            proof {
                named = named_item(package_id, package@.exprs[e.0].kind);
            }
            match &package.get_expr(e).kind {
                ExprKind::Var(Res::Item(id), _) => {
                    r.push(StoreItemId { package: id.package, item: id.item });
                },
                ExprKind::Closure(_, item) => {
                    r.push(StoreItemId { package: package_id, item: *item });
                },
                _ => {},
            }
        }
        proof {
            let shorter = nodes@.take(i as int);
            let longer = nodes@.take(i + 1);
            assert(r@ == (match named {
                Some(id) => before.push(id),
                None => before,
            }));
            assert forall|id: StoreItemId|
                r@.contains(id) <==> #[trigger] nodes_name(
                    package@,
                    package_id,
                    longer,
                    id,
                ) by {
                assert(nodes_name(package@, package_id, shorter, id) <==> before.contains(id));
                if r@.contains(id) {
                    if before.contains(id) {
                        let j = choose|j: int|
                            0 <= j < shorter.len() && (#[trigger] shorter[j] matches Node::Expr(e)
                                && named_item(package_id, package@.exprs[e.0].kind) == Some(id));
                        assert(longer[j] == shorter[j]);
                    } else {
                        assert(named == Some(id));
                        assert(longer[i as int] == nodes@[i as int]);
                    }
                }
                if nodes_name(package@, package_id, longer, id) {
                    let j = choose|j: int|
                        0 <= j < longer.len() && (#[trigger] longer[j] matches Node::Expr(e)
                            && named_item(package_id, package@.exprs[e.0].kind) == Some(id));
                    if j < i {
                        assert(shorter[j] == longer[j]);
                        assert(before.contains(id));
                        let k = before.index_of(id);
                        assert(r@[k] == id);
                    } else {
                        assert(r@[before.len() as int] == id);
                    }
                }
            }
        }
        i = i + 1;
    }
    assert(nodes@.take(i as int) =~= nodes@);
    r
}

/// Whether the store has the item.
pub fn has_item(store: &PackageStore, id: StoreItemId) -> (r: bool)
    ensures
        r == item_exists(store@, id),
{
    match store.packages.get(id.package.0) {
        Some(package) => package.items.contains_key(id.item.0),
        None => false,
    }
}

/// Adds the items among `found` that exist and are new to `set`, and puts them in line.
fn note_items(
    store: &PackageStore,
    found: &Vec<StoreItemId>,
    set: &mut ItemSet,
    pending: &mut Vec<StoreItemId>,
)
    ensures
        forall|id: StoreItemId| #[trigger]
            final(set)@.contains(id) <==> old(set)@.contains(id) || (found@.contains(id)
                && item_exists(store@, id)),
        forall|id: StoreItemId| #[trigger]
            final(pending)@.contains(id) ==> old(pending)@.contains(id) || final(set)@.contains(
                id,
            ),
        forall|id: StoreItemId|
            old(pending)@.contains(id) || (final(set)@.contains(id) && !old(set)@.contains(id))
                ==> #[trigger] final(pending)@.contains(id),
        final(set)@ == old(set)@ ==> final(pending)@ == old(pending)@,
{
    let mut i: usize = 0;
    while i < found.len()
        invariant
            i <= found@.len(),
            forall|id: StoreItemId| #[trigger]
                set@.contains(id) <==> old(set)@.contains(id) || (found@.take(i as int).contains(id)
                    && item_exists(store@, id)),
            forall|id: StoreItemId| #[trigger]
                pending@.contains(id) ==> old(pending)@.contains(id) || set@.contains(id),
            forall|id: StoreItemId|
                old(pending)@.contains(id) || (set@.contains(id) && !old(set)@.contains(id))
                    ==> #[trigger] pending@.contains(id),
            set@ == old(set)@ ==> pending@ == old(pending)@,
        decreases found@.len() - i,
    {
        let id: StoreItemId = found[i];
        let ghost set_before = set@;
        let ghost pending_before = pending@;
        let ghost shorter = found@.take(i as int);
        let ghost longer = found@.take(i + 1);
        assert(longer =~= shorter.push(id));
        assert forall|x: StoreItemId| #[trigger]
            longer.contains(x) <==> shorter.contains(x) || x == id by {
            if shorter.contains(x) {
                assert(longer[shorter.index_of(x)] == x);
            }
            assert(longer[i as int] == id);
            if longer.contains(x) && x != id {
                assert(shorter[longer.index_of(x)] == x);
            }
        }
        if has_item(store, id) {
            if set.insert(id) {
                pending.push(id);
                proof {
                    assert forall|x: StoreItemId| #[trigger]
                        pending@.contains(x) <==> pending_before.contains(x) || x == id by {
                        if pending_before.contains(x) {
                            assert(pending@[pending_before.index_of(x)] == x);
                        }
                        assert(pending@[pending_before.len() as int] == id);
                        if pending@.contains(x) && x != id {
                            assert(pending_before[pending@.index_of(x)] == x);
                        }
                    }
                    assert(set@.contains(id) && !set_before.contains(id));
                    assert(set_before.contains(id) == false);
                    assert(!old(set)@.contains(id));
                }
            } else {
                assert(set@ =~= set_before);
            }
        }
        i = i + 1;
    }
    assert(found@.take(i as int) =~= found@);
}

/// Adds what the item uses and is new to `set`, and puts it in line.
fn note_uses(
    store: &PackageStore,
    user: StoreItemId,
    set: &mut ItemSet,
    pending: &mut Vec<StoreItemId>,
)
    requires
        item_exists(store@, user),
        item_ok(store@, user),
    ensures
        forall|id: StoreItemId| #[trigger]
            final(set)@.contains(id) <==> old(set)@.contains(id) || item_uses(store@, user, id),
        forall|id: StoreItemId| #[trigger]
            final(pending)@.contains(id) ==> old(pending)@.contains(id) || final(set)@.contains(
                id,
            ),
        forall|id: StoreItemId|
            old(pending)@.contains(id) || (final(set)@.contains(id) && !old(set)@.contains(id))
                ==> #[trigger] final(pending)@.contains(id),
        final(set)@ == old(set)@ ==> final(pending)@ == old(pending)@,
{
    let owner = store.get(user.package);
    if let ItemKind::Callable(decl) = &owner.get_item(user.item).kind {
        let nodes = callable_nodes(owner, decl);
        proof {
            lemma_walk_all_ok(owner@, body_nodes(decl.implementation), owner@.node_depth());
        }
        let found = named_items(owner, user.package, &nodes);
        note_items(store, &found, set, pending);
        assert forall|id: StoreItemId|
            item_uses(store@, user, id) <==> #[trigger] found@.contains(id) && item_exists(
                store@,
                id,
            ) by {
            assert(found@.contains(id) <==> nodes_name(owner@, user.package, nodes@, id));
        }
    }
}

/// Whether the item is whole, if it is a callable.
fn is_item_ok(store: &PackageStore, id: StoreItemId) -> (r: bool)
    requires
        item_exists(store@, id),
    ensures
        r == item_ok(store@, id),
{
    let owner = store.get(id.package);
    match &owner.get_item(id.item).kind {
        ItemKind::Callable(decl) => is_callable_ok(owner, decl),
        _ => true,
    }
}

/// The items that can be reached from the entry expression of the package and from the seeds, if
/// everything on the way is whole.
pub fn try_collect_reachable(
    store: &PackageStore,
    package_id: PackageId,
    seeds: &Vec<StoreItemId>,
) -> (r: Option<ItemSet>)
    ensures
        match r {
            Some(set) => {
                &&& reach_ok(store@, package_id, seeds@)
                &&& set@ == reachable_set(store@, package_id, seeds@)
            },
            None => !reach_ok(store@, package_id, seeds@),
        },
{
    if !store.packages.contains_key(package_id.0) {
        return None;
    }
    if !is_entry_ok(store.get(package_id)) {
        return None;
    }
    let mut set = ItemSet::new();
    let mut pending: Vec<StoreItemId> = Vec::new();
    let package = store.get(package_id);
    if let Some(e) = package.entry {
        let mut roots: Vec<Node> = Vec::new();
        roots.push(Node::Expr(e));
        assert(roots@ =~= seq![Node::Expr(e)]);
        let nodes = walk_nodes(package, &roots);
        proof {
            lemma_walk_all_ok(package@, roots@, package@.node_depth());
        }
        let found = named_items(package, package_id, &nodes);
        note_items(store, &found, &mut set, &mut pending);
        assert forall|id: StoreItemId| #[trigger] set@.contains(id) implies entry_uses(
            store@,
            package_id,
            id,
        ) by {
            assert(nodes_name(package@, package_id, nodes@, id));
        }
        assert forall|id: StoreItemId| entry_uses(store@, package_id, id) implies set@.contains(
            id,
        ) by {
            assert(nodes_name(package@, package_id, nodes@, id));
        }
    }
    assert forall|id: StoreItemId| entry_uses(store@, package_id, id) <==> #[trigger] set@.contains(
        id,
    ) by {}
    assert forall|id: StoreItemId| #[trigger] set@.contains(id) <==> pending@.contains(id) by {}
    note_items(store, seeds, &mut set, &mut pending);
    assert forall|id: StoreItemId| #[trigger]
        is_root(store@, package_id, seeds@, id) <==> set@.contains(id) by {}
    proof {
        assert forall|id: StoreItemId| #[trigger] set@.contains(id) implies is_reachable(
            store@,
            package_id,
            seeds@,
            id,
        ) by {
            lemma_root_reachable(store@, package_id, seeds@, id);
        }
        lemma_items_finite(Set::<StoreItemId>::full());
        lemma_items_finite(set@);
    }
    proof {
        reveal(in_progress);
        assert(in_progress(store@, package_id, seeds@, set@, pending@));
    }
    while pending.len() > 0
        invariant
            store@.contains_key(package_id.0),
            store@[package_id.0].entry_ok(),
            forall|id: StoreItemId| #[trigger]
                set@.contains(id) && !pending@.contains(id) ==> item_ok(store@, id),
            in_progress(store@, package_id, seeds@, set@, pending@),
        decreases Set::<StoreItemId>::full().len() - set@.len(), pending@.len(),
    {
        let ghost set_before = set@;
        let ghost pending_before = pending@;
        let user: StoreItemId = pending.pop().unwrap();
        proof {
            reveal(in_progress);
            assert(pending_before.contains(pending_before.last()));
        }
        if !is_item_ok(store, user) {
            assert(is_reachable(store@, package_id, seeds@, user));
            return None;
        }
        note_uses(store, user, &mut set, &mut pending);
        proof {
            lemma_progress(
                store@,
                package_id,
                seeds@,
                set_before,
                pending_before,
                set@,
                pending@,
            );
            assert forall|id: StoreItemId| #[trigger]
                set@.contains(id) && !pending@.contains(id) implies item_ok(store@, id) by {
                if id != user {
                    assert(set_before.contains(id));
                    assert(!pending_before.drop_last().contains(id));
                    if pending_before.contains(id) {
                        let i = pending_before.index_of(id);
                        assert(pending_before.drop_last()[i] == id);
                    }
                }
            }
        }
    }
    proof {
        reveal(in_progress);
        assert forall|user: StoreItemId, id: StoreItemId|
            set@.contains(user) && #[trigger] item_uses(store@, user, id) implies set@.contains(
            id,
        ) by {
            assert(!pending@.contains(user));
        }
        lemma_reachable_least(store@, package_id, seeds@, set@);
        assert(set@ =~= reachable_set(store@, package_id, seeds@));
        assert forall|id: StoreItemId| #[trigger]
            is_reachable(store@, package_id, seeds@, id) implies item_ok(store@, id) by {
            assert(set@.contains(id));
        }
    }
    Some(set)
}

/// The items that can be reached from the entry expression of the package and from the seeds:
/// those that the entry expression names, the seeds that exist, and whatever the specializations
/// of a callable among them name in turn. A name for an item that the store does not have is
/// passed over.
pub fn collect_reachable_with_seeds(
    store: &PackageStore,
    package_id: PackageId,
    seeds: &Vec<StoreItemId>,
) -> (r: ItemSet)
    requires
        reach_ok(store@, package_id, seeds@),
    ensures
        r@ == reachable_set(store@, package_id, seeds@),
{
    try_collect_reachable(store, package_id, seeds).unwrap()
}

/// The items that can be reached from the entry expression of the package.
pub fn collect_reachable_from_entry(store: &PackageStore, package_id: PackageId) -> (r: ItemSet)
    requires
        reach_ok(store@, package_id, Seq::empty()),
    ensures
        r@ == reachable_set(store@, package_id, Seq::empty()),
{
    let seeds: Vec<StoreItemId> = Vec::new();
    collect_reachable_with_seeds(store, package_id, &seeds)
}

/// The names of those of the given items that are reachable callables, in order.
pub open spec fn callable_names(
    p: PackageV,
    package: PackageId,
    reachable: Set<StoreItemId>,
    items: Seq<usize>,
) -> Seq<Seq<char>>
    decreases items.len(),
{
    if items.len() == 0 {
        seq![]
    } else {
        let before = callable_names(p, package, reachable, items.drop_last());
        let id = StoreItemId { package, item: LocalItemId(items.last()) };
        match p.items[items.last()].kind {
            ItemKind::Callable(decl) if reachable.contains(id) => before.push(decl.name.name@),
            _ => before,
        }
    }
}

/// The names of the callables of the package that its entry expression reaches, sorted, one on
/// each line.
pub fn extract_reachable(store: &PackageStore, package_id: PackageId) -> (r: String)
    requires
        reach_ok(store@, package_id, Seq::empty()),
    ensures
        r@ == joined(
            sorted(
                callable_names(
                    store@[package_id.0],
                    package_id,
                    reachable_set(store@, package_id, Seq::empty()),
                    keys_in_order(store@[package_id.0].items.dom()),
                ),
            ),
            "\n"@,
        ),
{
    let reachable = collect_reachable_from_entry(store, package_id);
    let package = store.get(package_id);
    let items = package.items.keys();
    let ghost p = package@;
    proof {
        lemma_keys_below(p.items.dom(), usize::MAX as nat + 1);
    }
    let mut names: Vec<String> = Vec::new();
    let mut i: usize = 0;
    while i < items.len()
        invariant
            i <= items@.len(),
            p == package@,
            forall|k: usize| #[trigger] items@.contains(k) ==> p.items.contains_key(k),
            texts(names@) == callable_names(p, package_id, reachable@, items@.take(i as int)),
        decreases items@.len() - i,
    {
        assert(items@.take(i + 1).drop_last() =~= items@.take(i as int));
        assert(items@.contains(items@[i as int]));
        let id = LocalItemId(items[i]);
        if reachable.contains(&StoreItemId { package: package_id, item: id }) {
            if let ItemKind::Callable(decl) = &package.get_item(id).kind {
                let ghost before = names@;
                names.push(decl.name.name.clone());
                assert(texts(names@) =~= texts(before).push(decl.name.name@));
            }
        }
        i = i + 1;
    }
    assert(items@.take(i as int) =~= items@);
    join(&sort_texts(&names), "\n")
}

} // verus!
