//! A map from small integers to values, stored as a vector of optional slots.

use vstd::prelude::*;

verus! {

/// The members of `keys` that are less than `n`, in increasing order.
pub open spec fn keys_below(keys: Set<usize>, n: nat) -> Seq<usize>
    decreases n,
{
    if n == 0 {
        seq![]
    } else {
        let k = (n - 1) as usize;
        if keys.contains(k) {
            keys_below(keys, (n - 1) as nat).push(k)
        } else {
            keys_below(keys, (n - 1) as nat)
        }
    }
}

/// All members of `keys` in increasing order.
pub open spec fn keys_in_order(keys: Set<usize>) -> Seq<usize> {
    keys_below(keys, usize::MAX as nat + 1)
}

/// `keys_below` has stopped growing once `n` is above every key.
pub proof fn lemma_keys_below_stable(keys: Set<usize>, m: nat, n: nat)
    requires
        m <= n <= usize::MAX as nat + 1,
        forall|k: usize| #[trigger] keys.contains(k) ==> k < m,
    ensures
        keys_below(keys, n) == keys_below(keys, m),
    decreases n,
{
    if m < n {
        lemma_keys_below_stable(keys, m, (n - 1) as nat);
        assert(!keys.contains((n - 1) as usize));
    }
}

/// The enumeration holds exactly the members of `keys` below `n`, each once, in increasing order.
pub proof fn lemma_keys_below(keys: Set<usize>, n: nat)
    requires
        n <= usize::MAX as nat + 1,
    ensures
        forall|k: usize| #[trigger]
            keys_below(keys, n).contains(k) <==> keys.contains(k) && k < n,
        forall|i: int, j: int|
            0 <= i < j < keys_below(keys, n).len() ==> keys_below(keys, n)[i] < keys_below(
                keys,
                n,
            )[j],
    decreases n,
{
    if n > 0 {
        let k0 = (n - 1) as usize;
        let rest = keys_below(keys, (n - 1) as nat);
        lemma_keys_below(keys, (n - 1) as nat);
        assert forall|i: int| 0 <= i < rest.len() implies #[trigger] rest[i] < k0 by {
            assert(rest.contains(rest[i]));
        }
        assert forall|k: usize| #[trigger]
            keys_below(keys, n).contains(k) <==> keys.contains(k) && k < n by {
            if keys.contains(k0) {
                let all = rest.push(k0);
                assert(all[rest.len() as int] == k0);
                if rest.contains(k) {
                    let i = rest.index_of(k);
                    assert(all[i] == k);
                }
                if all.contains(k) && k != k0 {
                    let i = all.index_of(k);
                    assert(rest[i] == k);
                }
            }
        }
    }
}

/// A map whose keys are indices into a vector of slots.
#[derive(Clone, Debug)]
pub struct IndexMap<V> {
    /// The value of each key, `None` where the key is absent.
    pub slots: Vec<Option<V>>,
}

impl<V> View for IndexMap<V> {
    type V = Map<usize, V>;

    open spec fn view(&self) -> Map<usize, V> {
        Map::new(
            |k: usize| k < self.slots@.len() && self.slots@[k as int] is Some,
            |k: usize| self.slots@[k as int]->0,
        )
    }
}

impl<V> IndexMap<V> {
    /// An empty map.
    pub fn new() -> (r: Self)
        ensures
            r@ == Map::<usize, V>::empty(),
    {
        let r = IndexMap { slots: Vec::new() };
        assert(r@ =~= Map::<usize, V>::empty());
        r
    }

    /// The value at `k`, if there is one.
    pub fn get(&self, k: usize) -> (r: Option<&V>)
        ensures
            r is Some <==> self@.contains_key(k),
            r matches Some(v) ==> *v == self@[k],
    {
        if k < self.slots.len() {
            self.slots[k].as_ref()
        } else {
            None
        }
    }

    /// Whether there is a value at `k`.
    pub fn contains_key(&self, k: usize) -> (r: bool)
        ensures
            r == self@.contains_key(k),
    {
        k < self.slots.len() && self.slots[k].is_some()
    }

    /// Mutable access to the value at `k`.
    pub fn get_mut(&mut self, k: usize) -> (r: &mut V)
        requires
            old(self)@.contains_key(k),
        ensures
            *r == old(self)@[k],
            final(self)@ == old(self)@.insert(k, *final(r)),
    {
        match &mut self.slots[k] {
            Some(v) => v,
            None => vstd::pervasive::unreached(),
        }
    }

    /// Puts `v` at `k`, in place of whatever was there.
    pub fn insert(&mut self, k: usize, v: V)
        requires
            k < usize::MAX,
        ensures
            final(self)@ == old(self)@.insert(k, v),
    {
        while self.slots.len() <= k
            invariant
                k < usize::MAX,
                self@ == old(self)@,
            decreases k + 1 - self.slots.len(),
        {
            let ghost before = self@;
            self.slots.push(None);
            assert(self@ =~= before);
        }
        self.slots[k] = Some(v);
        assert(self@ =~= old(self)@.insert(k, v));
    }

    /// Takes the value at `k` away, if there is one.
    pub fn remove(&mut self, k: usize)
        ensures
            final(self)@ == old(self)@.remove(k),
    {
        if k < self.slots.len() {
            self.slots[k] = None;
        }
        assert(self@ =~= old(self)@.remove(k));
    }

    /// How many keys there are.
    pub fn len(&self) -> (r: usize)
        ensures
            r == self@.dom().len(),
            self@.dom().finite(),
    {
        let keys = self.keys();
        proof {
            lemma_keys_below(self@.dom(), usize::MAX as nat + 1);
            keys@.unique_seq_to_set();
            assert(keys@.to_set() =~= self@.dom());
        }
        keys.len()
    }

    /// The keys in increasing order.
    pub fn keys(&self) -> (r: Vec<usize>)
        ensures
            r@ == keys_in_order(self@.dom()),
    {
        let mut r: Vec<usize> = Vec::new();
        let n: usize = self.slots.len();
        let mut i: usize = 0;
        while i < n
            invariant
                i <= n,
                n == self.slots@.len(),
                r@ == keys_below(self@.dom(), i as nat),
            decreases n - i,
        {
            if self.slots[i].is_some() {
                r.push(i);
            }
            i = i + 1;
        }
        proof {
            lemma_keys_below_stable(self@.dom(), n as nat, usize::MAX as nat + 1);
        }
        r
    }
}

} // verus!
