//! Handing out identifiers for synthesized nodes.

use vstd::prelude::*;

use crate::fir::{ExprId, Package, PackageV, StmtId};
use crate::index_map::IndexMap;

verus! {

/// The next identifier of each kind to hand out. One assigner serves every pass of a run, so that
/// the identifiers of synthesized nodes never collide.
#[derive(Clone, Copy, Debug, PartialEq, Eq, Structural)]
pub struct Assigner {
    pub next_expr: usize,
    pub next_stmt: usize,
}

/// Whether `n` is the least number above every key.
pub open spec fn is_first_free(keys: Set<usize>, n: usize) -> bool {
    &&& forall|k: usize| #[trigger] keys.contains(k) ==> k < n
    &&& n > 0 ==> keys.contains((n - 1) as usize)
}

/// Whether every expression and statement of the package comes before what is handed out next.
pub open spec fn is_fresh(assigner: Assigner, p: PackageV) -> bool {
    &&& forall|k: usize| #[trigger] p.exprs.contains_key(k) ==> k < assigner.next_expr
    &&& forall|k: usize| #[trigger] p.stmts.contains_key(k) ==> k < assigner.next_stmt
}

fn first_free<V>(map: &IndexMap<V>) -> (r: usize)
    ensures
        is_first_free(map@.dom(), r),
{
    let mut n: usize = map.slots.len();
    while n > 0 && map.slots[n - 1].is_none()
        invariant
            n <= map.slots@.len(),
            forall|k: usize| #[trigger] map@.dom().contains(k) ==> k < n,
        decreases n,
    {
        n = n - 1;
    }
    n
}

impl Assigner {
    /// An assigner that starts above everything in the package.
    pub fn from_package(package: &Package) -> (r: Self)
        ensures
            is_first_free(package@.exprs.dom(), r.next_expr),
            is_first_free(package@.stmts.dom(), r.next_stmt),
            is_fresh(r, package@),
    {
        let next_expr: usize = first_free(&package.exprs);
        let next_stmt: usize = first_free(&package.stmts);
        assert(package@.exprs.dom() =~= package.exprs@.dom());
        Assigner { next_expr, next_stmt }
    }

    /// Hands out an expression identifier.
    pub fn next_expr(&mut self) -> (r: ExprId)
        requires
            old(self).next_expr < usize::MAX,
        ensures
            r == ExprId(old(self).next_expr),
            *final(self) == (Assigner {
                next_expr: (old(self).next_expr + 1) as usize,
                ..*old(self)
            }),
    {
        let id = ExprId(self.next_expr);
        self.next_expr = self.next_expr + 1;
        id
    }

    /// Hands out a statement identifier.
    pub fn next_stmt(&mut self) -> (r: StmtId)
        requires
            old(self).next_stmt < usize::MAX,
        ensures
            r == StmtId(old(self).next_stmt),
            *final(self) == (Assigner {
                next_stmt: (old(self).next_stmt + 1) as usize,
                ..*old(self)
            }),
    {
        let id = StmtId(self.next_stmt);
        self.next_stmt = self.next_stmt + 1;
        id
    }
}

} // verus!
