use vstd::prelude::*;

verus! {

/// Damage taken in one simulation under one prayer sequence, and whether the player died.
#[derive(Clone, Copy, Debug, PartialEq, Eq, Structural)]
pub struct DamageResult {
    pub damage: i32,
    pub died: bool,
}

/// A monster id that is due to be marked dead at `tick`.
#[derive(Clone, Copy, Debug, PartialEq, Eq, Structural)]
pub struct PendingMobRemoval {
    pub tick: i32,
    pub mob_id: usize,
}

/// Damage dealt to monster `mob_id` at `tick`: a player hit, or recoil.
#[derive(Clone, Copy, Debug, PartialEq, Eq, Structural)]
pub struct PendingHit {
    pub tick: i32,
    pub mob_id: usize,
    pub damage: i32,
}

/// A player hit that lands later.
pub type PendingPlayerHit = PendingHit;
/// Recoil damage dealt later.
pub type PendingRecoil = PendingHit;

/// A player projectile in flight towards a monster.
#[derive(Clone, Copy, Debug, PartialEq, Eq, Structural)]
pub struct PlayerProjectile {
    pub delay: i32,
    pub damage: i32,
}

/// A monster projectile in flight towards the player.
#[derive(Clone, Copy, Debug, PartialEq, Eq, Structural)]
pub struct MobProjectile {
    pub delay: i32,
}

/// Position of the first item of `s` for which `p` holds (`s.len()` where none does).
pub open spec fn first_where<T>(s: Seq<T>, p: spec_fn(T) -> bool) -> int {
    if exists|k: int| 0 <= k < s.len() && #[trigger] p(s[k]) && forall|j: int| 0 <= j < k ==> !p(#[trigger] s[j]) {
        choose|k: int| 0 <= k < s.len() && #[trigger] p(s[k]) && forall|j: int| 0 <= j < k ==> !p(#[trigger] s[j])
    } else {
        s.len() as int
    }
}

/// An index that holds `p` with none before it is the first position where `p` holds.
pub proof fn lemma_first_where<T>(s: Seq<T>, p: spec_fn(T) -> bool, i: int)
    requires
        0 <= i < s.len(),
        p(s[i]),
        forall|j: int| 0 <= j < i ==> !p(#[trigger] s[j]),
    ensures
        first_where(s, p) == i,
{
    let k = choose|k: int| 0 <= k < s.len() && #[trigger] p(s[k]) && forall|j: int| 0 <= j < k ==> !p(#[trigger] s[j]);
    assert(0 <= k < s.len() && p(s[k]) && forall|j: int| 0 <= j < k ==> !p(#[trigger] s[j]));
    if k < i {
        assert(!p(s[k]));
    } else if k > i {
        assert(!p(s[i]));
    }
}

/// A queue whose first `N` slots form an inline part and whose further items
/// spill into an overflow part. Its items are the inline part followed by the
/// overflow part; removal swaps within the part that holds the removed item.
#[derive(Debug)]
pub struct SmallQueue<T: Copy, const N: usize> {
    pub inline: Vec<T>,
    pub overflow: Vec<T>,
}

impl<T: Copy, const N: usize> SmallQueue<T, N> {
    /// The inline part never exceeds its `N` slots.
    pub open spec fn wf(&self) -> bool {
        self.inline@.len() <= N
    }

    /// The items, inline part first.
    pub open spec fn items(&self) -> Seq<T> {
        self.inline@ + self.overflow@
    }

    /// An empty queue.
    pub fn new() -> (r: Self)
        ensures
            r.wf(),
            r.inline@ == Seq::<T>::empty(),
            r.overflow@ == Seq::<T>::empty(),
            r.items() == Seq::<T>::empty(),
    {
        let r = SmallQueue { inline: Vec::new(), overflow: Vec::new() };
        assert(r.items() =~= Seq::<T>::empty());
        r
    }

    /// Whether the queue holds no item.
    pub fn is_empty(&self) -> (r: bool)
        ensures
            r == (self.items().len() == 0),
    {
        self.inline.len() == 0 && self.overflow.len() == 0
    }

    /// The number of items.
    pub fn len(&self) -> (r: usize)
        requires
            self.items().len() <= usize::MAX,
        ensures
            r == self.items().len(),
    {
        self.inline.len() + self.overflow.len()
    }

    /// Appends an item: to the inline part while it has a free slot, else to the overflow.
    pub fn push(&mut self, item: T)
        requires
            old(self).wf(),
        ensures
            final(self).wf(),
            old(self).inline@.len() < N ==> final(self).inline@ == old(self).inline@.push(item)
                && final(self).overflow@ == old(self).overflow@,
            old(self).inline@.len() >= N ==> final(self).inline@ == old(self).inline@
                && final(self).overflow@ == old(self).overflow@.push(item),
            final(self).items().to_multiset() == old(self).items().to_multiset().insert(item),
            final(self).items().len() == old(self).items().len() + 1,
    {
        let ghost old_items = self.items();
        if self.inline.len() < N {
            self.inline.push(item);
            proof {
                let a = old(self).inline@;
                let b = old(self).overflow@;
                assert(self.items() =~= (a + seq![item]) + b);
                vstd::seq_lib::lemma_multiset_commutative(a + seq![item], b);
                vstd::seq_lib::lemma_multiset_commutative(a, seq![item]);
                vstd::seq_lib::lemma_multiset_commutative(a, b);
                assert(seq![item].to_multiset() =~= vstd::multiset::Multiset::singleton(item)) by {
                    broadcast use vstd::seq_lib::group_to_multiset_ensures;
                    assert(seq![item] =~= Seq::<T>::empty().push(item));
                }
                assert(self.items().to_multiset() =~= old_items.to_multiset().insert(item));
            }
        } else {
            self.overflow.push(item);
            proof {
                broadcast use vstd::seq_lib::group_to_multiset_ensures;
                assert(self.items() =~= old_items.push(item));
            }
        }
    }

    /// The item at position `idx`.
    pub fn get(&self, idx: usize) -> (r: T)
        requires
            idx < self.items().len(),
        ensures
            r == self.items()[idx as int],
    {
        if idx < self.inline.len() {
            self.inline[idx]
        } else {
            self.overflow[idx - self.inline.len()]
        }
    }

    /// Replaces the item at position `idx`.
    pub fn set(&mut self, idx: usize, item: T)
        requires
            idx < old(self).items().len(),
        ensures
            final(self).items() == old(self).items().update(idx as int, item),
            final(self).inline@.len() == old(self).inline@.len(),
            final(self).overflow@.len() == old(self).overflow@.len(),
    {
        if idx < self.inline.len() {
            self.inline.set(idx, item);
        } else {
            let j: usize = idx - self.inline.len();
            self.overflow.set(j, item);
        }
        assert(self.items() =~= old(self).items().update(idx as int, item));
    }

    /// Removes the item at `idx` and returns it; the last item of the same part takes its place.
    pub fn swap_remove(&mut self, idx: usize) -> (r: T)
        requires
            old(self).wf(),
            idx < old(self).items().len(),
        ensures
            final(self).wf(),
            r == old(self).items()[idx as int],
            idx < old(self).inline@.len() ==> final(self).inline@ == old(self).inline@.update(
                idx as int,
                old(self).inline@.last(),
            ).drop_last() && final(self).overflow@ == old(self).overflow@,
            idx >= old(self).inline@.len() ==> final(self).inline@ == old(self).inline@
                && final(self).overflow@ == old(self).overflow@.update(
                idx - old(self).inline@.len(),
                old(self).overflow@.last(),
            ).drop_last(),
            final(self).items().len() + 1 == old(self).items().len(),
    {
        if idx < self.inline.len() {
            self.inline.swap_remove(idx)
        } else {
            let j: usize = idx - self.inline.len();
            self.overflow.swap_remove(j)
        }
    }

    /// Keeps exactly the items for which `keep` holds, in their order, part by part.
    pub fn retain<F: Fn(T) -> bool>(&mut self, keep: F, Ghost(pred): Ghost<spec_fn(T) -> bool>)
        requires
            old(self).wf(),
            forall|x: T| #[trigger] call_requires(keep, (x,)),
            forall|x: T, b: bool| call_ensures(keep, (x,), b) ==> b == pred(x),
        ensures
            final(self).wf(),
            final(self).inline@ == old(self).inline@.filter(pred),
            final(self).overflow@ == old(self).overflow@.filter(pred),
    {
        let mut inline: Vec<T> = Vec::new();
        let mut i: usize = 0;
        while i < self.inline.len()
            invariant
                i <= self.inline@.len(),
                self.inline@ == old(self).inline@,
                forall|x: T| #[trigger] call_requires(keep, (x,)),
                forall|x: T, b: bool| call_ensures(keep, (x,), b) ==> b == pred(x),
                inline@ == self.inline@.subrange(0, i as int).filter(pred),
            decreases self.inline@.len() - i,
        {
            let item: T = self.inline[i];
            let k: bool = keep(item);
            proof {
                reveal_with_fuel(Seq::<_>::filter, 1);
                assert(self.inline@.subrange(0, i + 1).drop_last() =~= self.inline@.subrange(0, i as int));
            }
            if k {
                inline.push(item);
            }
            i = i + 1;
        }
        assert(self.inline@.subrange(0, self.inline@.len() as int) =~= self.inline@);
        let mut overflow: Vec<T> = Vec::new();
        let mut j: usize = 0;
        while j < self.overflow.len()
            invariant
                j <= self.overflow@.len(),
                self.overflow@ == old(self).overflow@,
                forall|x: T| #[trigger] call_requires(keep, (x,)),
                forall|x: T, b: bool| call_ensures(keep, (x,), b) ==> b == pred(x),
                overflow@ == self.overflow@.subrange(0, j as int).filter(pred),
            decreases self.overflow@.len() - j,
        {
            let item: T = self.overflow[j];
            let k: bool = keep(item);
            proof {
                reveal_with_fuel(Seq::<_>::filter, 1);
                assert(self.overflow@.subrange(0, j + 1).drop_last() =~= self.overflow@.subrange(0, j as int));
            }
            if k {
                overflow.push(item);
            }
            j = j + 1;
        }
        assert(self.overflow@.subrange(0, self.overflow@.len() as int) =~= self.overflow@);
        proof {
            old(self).inline@.lemma_filter_len(pred);
        }
        self.inline = inline;
        self.overflow = overflow;
    }

    /// A mutable reference to the first item for which `pred` holds; writing through
    /// it changes that item in place.
    pub fn first_mut<F: Fn(T) -> bool>(&mut self, pred: F, Ghost(p): Ghost<spec_fn(T) -> bool>) -> (r: Option<&mut T>)
        requires
            forall|x: T| #[trigger] call_requires(pred, (x,)),
            forall|x: T, b: bool| call_ensures(pred, (x,), b) ==> b == p(x),
        ensures
            final(self).inline@.len() == old(self).inline@.len(),
            r is None ==> forall|k: int| 0 <= k < old(self).items().len() ==> !p(#[trigger] old(self).items()[k]),
            r is None ==> *final(self) == *old(self),
            r matches Some(x) ==> {
                let k = first_where(old(self).items(), p);
                &&& 0 <= k < old(self).items().len()
                &&& *x == old(self).items()[k]
                &&& final(self).items() == old(self).items().update(k, *final(x))
            },
    {
        let n_in: usize = self.inline.len();
        let mut i: usize = 0;
        while i < n_in
            invariant
                n_in == self.inline@.len(),
                i <= n_in,
                *self == *old(self),
                forall|x: T| #[trigger] call_requires(pred, (x,)),
                forall|x: T, b: bool| call_ensures(pred, (x,), b) ==> b == p(x),
                forall|k: int| 0 <= k < i ==> !p(#[trigger] self.items()[k]),
            decreases n_in - i,
        {
            if pred(self.inline[i]) {
                proof { lemma_first_where(self.items(), p, i as int); }
                return Some(&mut self.inline[i]);
            }
            i = i + 1;
        }
        let n_of: usize = self.overflow.len();
        let mut j: usize = 0;
        while j < n_of
            invariant
                n_in == self.inline@.len(),
                n_of == self.overflow@.len(),
                j <= n_of,
                *self == *old(self),
                forall|x: T| #[trigger] call_requires(pred, (x,)),
                forall|x: T, b: bool| call_ensures(pred, (x,), b) ==> b == p(x),
                forall|k: int| 0 <= k < n_in + j ==> !p(#[trigger] self.items()[k]),
            decreases n_of - j,
        {
            assert(self.items()[n_in + j] == self.overflow@[j as int]);
            if pred(self.overflow[j]) {
                proof { lemma_first_where(self.items(), p, n_in + j); }
                return Some(&mut self.overflow[j]);
            }
            j = j + 1;
        }
        None
    }

    /// Folds `f` over the items, inline part first.
    pub fn for_each<A, F: Fn(A, T) -> A>(&self, init: A, f: F, Ghost(step): Ghost<spec_fn(A, T) -> A>) -> (r: A)
        requires
            forall|a: A, x: T| #[trigger] call_requires(f, (a, x)),
            forall|a: A, x: T, b: A| call_ensures(f, (a, x), b) ==> b == step(a, x),
        ensures
            r == self.items().fold_left(init, step),
    {
        let mut acc = init;
        let mut i: usize = 0;
        while i < self.inline.len()
            invariant
                i <= self.inline@.len(),
                forall|a: A, x: T| #[trigger] call_requires(f, (a, x)),
                forall|a: A, x: T, b: A| call_ensures(f, (a, x), b) ==> b == step(a, x),
                acc == self.inline@.take(i as int).fold_left(init, step),
            decreases self.inline@.len() - i,
        {
            proof { assert(self.inline@.take(i as int + 1).drop_last() =~= self.inline@.take(i as int)); }
            acc = f(acc, self.inline[i]);
            i = i + 1;
        }
        let mut j: usize = 0;
        while j < self.overflow.len()
            invariant
                i == self.inline@.len(),
                j <= self.overflow@.len(),
                forall|a: A, x: T| #[trigger] call_requires(f, (a, x)),
                forall|a: A, x: T, b: A| call_ensures(f, (a, x), b) ==> b == step(a, x),
                acc == (self.inline@ + self.overflow@.take(j as int)).fold_left(init, step),
            decreases self.overflow@.len() - j,
        {
            proof {
                assert((self.inline@ + self.overflow@.take(j as int + 1)).drop_last()
                    =~= self.inline@ + self.overflow@.take(j as int));
            }
            acc = f(acc, self.overflow[j]);
            j = j + 1;
        }
        proof {
            assert(self.inline@.take(i as int) =~= self.inline@);
            assert(self.inline@ + self.overflow@.take(j as int) =~= self.items());
        }
        acc
    }
}

/// Pending monster removals of a damage count.
pub type PendingMobRemovalQueue = SmallQueue<PendingMobRemoval, 16>;
/// Pending player hits of a damage count.
pub type PendingPlayerHitQueue = SmallQueue<PendingPlayerHit, 32>;
/// Pending recoil hits of a damage count.
pub type PendingRecoilQueue = SmallQueue<PendingRecoil, 16>;
/// Player projectiles in flight towards one monster.
pub type PlayerProjectileQueue = SmallQueue<PlayerProjectile, 8>;
/// Monster projectiles in flight towards the player.
pub type MobProjectileQueue = SmallQueue<MobProjectile, 32>;

} // verus!
