//! Keeping every item of a sequence that is least by some key.
use vstd::prelude::*;
use vstd::std_specs::cmp::OrdSpec;

use std::cmp::Ordering;

verus! {

/// The least of `keys`.
pub open spec fn min_key(keys: Seq<i64>) -> i64
    recommends
        keys.len() > 0,
    decreases keys.len(),
{
    if keys.len() <= 1 {
        keys[0]
    } else {
        let m = min_key(keys.drop_last());
        if keys.last() < m {
            keys.last()
        } else {
            m
        }
    }
}

/// The items whose key is `k`, in their order (`keys[i]` is the key of `items[i]`).
pub open spec fn with_key<T>(items: Seq<T>, keys: Seq<i64>, k: i64) -> Seq<T>
    decreases items.len(),
{
    if items.len() == 0 || keys.len() == 0 {
        Seq::empty()
    } else {
        let prev = with_key(items.drop_last(), keys.drop_last(), k);
        if keys.last() == k {
            prev.push(items.last())
        } else {
            prev
        }
    }
}

/// The items whose key is least, in their order; none for no items.
pub open spec fn keep_min<T>(items: Seq<T>, keys: Seq<i64>) -> Seq<T> {
    if items.len() == 0 {
        Seq::empty()
    } else {
        with_key(items, keys, min_key(keys))
    }
}

proof fn lemma_min_key_bound(keys: Seq<i64>)
    requires
        keys.len() > 0,
    ensures
        forall|i: int| 0 <= i < keys.len() ==> min_key(keys) <= #[trigger] keys[i],
        exists|i: int| 0 <= i < keys.len() && min_key(keys) == #[trigger] keys[i],
    decreases keys.len(),
{
    if keys.len() > 1 {
        lemma_min_key_bound(keys.drop_last());
        let m = min_key(keys.drop_last());
        assert forall|i: int| 0 <= i < keys.len() implies min_key(keys) <= #[trigger] keys[i] by {
            if i < keys.len() - 1 {
                assert(keys.drop_last()[i] == keys[i]);
            }
        }
        if keys.last() < m {
            assert(min_key(keys) == keys[keys.len() - 1]);
        } else {
            let j = choose|j: int| 0 <= j < keys.len() - 1 && m == #[trigger] keys.drop_last()[j];
            assert(keys[j] == keys.drop_last()[j]);
        }
    } else {
        assert(min_key(keys) == keys[0]);
    }
}

proof fn lemma_with_key_none<T>(items: Seq<T>, keys: Seq<i64>, k: i64)
    requires
        items.len() == keys.len(),
        forall|i: int| 0 <= i < keys.len() ==> #[trigger] keys[i] != k,
    ensures
        with_key(items, keys, k) == Seq::<T>::empty(),
    decreases items.len(),
{
    if items.len() > 0 {
        assert forall|i: int| 0 <= i < keys.drop_last().len() implies #[trigger] keys.drop_last()[i]
            != k by {
            assert(keys.drop_last()[i] == keys[i]);
        }
        lemma_with_key_none(items.drop_last(), keys.drop_last(), k);
        assert(keys.last() == keys[keys.len() - 1]);
    }
}

/// The items with the least key, of which `keys[i]` is the key of `items[i]`
/// (`keep_min`) are those whose key is no greater than any other, in their order.
pub proof fn lemma_keep_min_least<T>(items: Seq<T>, keys: Seq<i64>)
    requires
        items.len() == keys.len(),
        items.len() > 0,
    ensures
        keep_min(items, keys).len() > 0,
        forall|i: int| 0 <= i < keys.len() ==> min_key(keys) <= #[trigger] keys[i],
{
    lemma_min_key_bound(keys);
    lemma_with_key_nonempty(items, keys, min_key(keys));
}

proof fn lemma_with_key_nonempty<T>(items: Seq<T>, keys: Seq<i64>, k: i64)
    requires
        items.len() == keys.len(),
        exists|i: int| 0 <= i < keys.len() && #[trigger] keys[i] == k,
    ensures
        with_key(items, keys, k).len() > 0,
    decreases items.len(),
{
    if keys.last() != k {
        let i = choose|i: int| 0 <= i < keys.len() && #[trigger] keys[i] == k;
        assert(keys.drop_last()[i] == keys[i]);
        lemma_with_key_nonempty(items.drop_last(), keys.drop_last(), k);
    }
}

/// `x` is one of `items`, and its key is `k`.
pub open spec fn keyed_member<T>(items: Seq<T>, keys: Seq<i64>, x: T, k: i64) -> bool {
    exists|i: int| 0 <= i < items.len() && items[i] == x && keys[i] == k
}

proof fn lemma_with_key_members<T>(items: Seq<T>, keys: Seq<i64>, k: i64)
    requires
        items.len() == keys.len(),
    ensures
        forall|j: int|
            0 <= j < with_key(items, keys, k).len() ==> keyed_member(
                items,
                keys,
                #[trigger] with_key(items, keys, k)[j],
                k,
            ),
    decreases items.len(),
{
    if items.len() > 0 {
        lemma_with_key_members(items.drop_last(), keys.drop_last(), k);
        let prev = with_key(items.drop_last(), keys.drop_last(), k);
        assert forall|j: int| 0 <= j < with_key(items, keys, k).len() implies keyed_member(
            items,
            keys,
            #[trigger] with_key(items, keys, k)[j],
            k,
        ) by {
            if j < prev.len() {
                assert(keyed_member(items.drop_last(), keys.drop_last(), prev[j], k));
                let i = choose|i: int|
                    0 <= i < items.drop_last().len() && items.drop_last()[i] == prev[j]
                        && keys.drop_last()[i] == k;
                assert(items.drop_last()[i] == items[i]);
                assert(keys.drop_last()[i] == keys[i]);
                assert(with_key(items, keys, k)[j] == prev[j]);
            } else {
                let i = items.len() - 1;
                assert(with_key(items, keys, k)[j] == items[i]);
                assert(keys[i] == k);
            }
        }
    }
}

/// Every item that `keep_min` keeps is one of the items given, and its key is
/// the least of all the keys.
pub proof fn lemma_keep_min_members<T>(items: Seq<T>, keys: Seq<i64>)
    requires
        items.len() == keys.len(),
    ensures
        forall|j: int|
            0 <= j < keep_min(items, keys).len() ==> keyed_member(
                items,
                keys,
                #[trigger] keep_min(items, keys)[j],
                min_key(keys),
            ),
{
    if items.len() > 0 {
        lemma_with_key_members(items, keys, min_key(keys));
    }
}

/// Taking the items of least key, by the key that `f` gives each.
pub trait MinsBy<T>: Sized {
    /// The items, in order.
    spec fn items(&self) -> Seq<T>;

    /// Every item whose key is least, in their order: the key of an item is
    /// what `f` returns for it. No items give none.
    fn mins_by_key<F: Fn(&T) -> i64>(self, f: F) -> (r: Vec<T>)
        requires
            forall|i: int| 0 <= i < self.items().len() ==> f.requires((&self.items()[i],)),
        ensures
            exists|keys: Seq<i64>|
                {
                    &&& keys.len() == self.items().len()
                    &&& forall|i: int|
                        0 <= i < keys.len() ==> f.ensures((&self.items()[i],), #[trigger] keys[i])
                    &&& r@ == keep_min(self.items(), keys)
                },
    ;

    /// The fold of `mins_by` with the type's own order (see `fold_by_order`),
    /// for an order that obeys its specification.
    fn mins(self) -> (r: Vec<T>) where T: Ord
        ensures
            T::obeys_cmp_spec() ==> r@ == fold_by_order(self.items()),
    ;
}

impl<T> MinsBy<T> for Vec<T> {
    open spec fn items(&self) -> Seq<T> {
        self@
    }

    fn mins_by_key<F: Fn(&T) -> i64>(self, f: F) -> (r: Vec<T>) {
        let ghost all = self@;
        assert forall|j: int| 0 <= j < all.len() implies f.requires((&all[j],)) by {
            assert(all[j] == self.items()[j]);
        }
        let n = self.len();
        let mut rest = self;
        let mut acc: Vec<T> = Vec::new();
        let mut min: i64 = 0;
        let ghost mut keys: Seq<i64> = Seq::empty();
        let mut i: usize = 0;
        while i < n
            invariant
                n == all.len(),
                i <= n,
                rest@ == all.skip(i as int),
                keys.len() == i,
                forall|j: int| 0 <= j < all.len() ==> f.requires((&all[j],)),
                forall|j: int| 0 <= j < i ==> f.ensures((&all[j],), #[trigger] keys[j]),
                i > 0 ==> min == min_key(keys),
                acc@ == keep_min(all.take(i as int), keys),
            decreases n - i,
        {
            let item = rest.remove(0);
            assert(item == all[i as int]);
            let key = f(&item);
            let ghost old_keys = keys;
            let ghost old_acc = acc@;
            proof {
                keys = keys.push(key);
            }
            let ghost items = all.take(i + 1);
            assert(items.drop_last() =~= all.take(i as int));
            assert(keys.drop_last() =~= old_keys);
            if i == 0 {
                acc.push(item);
                min = key;
                assert(min_key(keys) == key);
                assert(with_key(items.drop_last(), keys.drop_last(), key) == Seq::<T>::empty());
                assert(items.last() == item);
                assert(acc@ =~= keep_min(items, keys));
            } else if key < min {
                proof {
                    lemma_min_key_bound(old_keys);
                    lemma_with_key_none(all.take(i as int), old_keys, key);
                }
                acc = Vec::new();
                acc.push(item);
                min = key;
                assert(acc@ =~= keep_min(items, keys));
            } else if key == min {
                acc.push(item);
                assert(acc@ =~= keep_min(items, keys));
            } else {
            }
            i = i + 1;
            assert(rest@ =~= all.skip(i as int));
        }
        assert(all.take(n as int) =~= all);
        acc
    }

    fn mins(self) -> (r: Vec<T>) where T: Ord {
        let ghost all = self@;
        let compare = |a: &T, b: &T| -> (o: Ordering)
            ensures
                T::obeys_cmp_spec() ==> o == a.cmp_spec(b),
            { a.cmp(b) };
        let r = mins_by(self, compare);
        proof {
            if T::obeys_cmp_spec() {
                let outs = choose|outs: Seq<Ordering>|
                    outcomes_of(all, outs, compare) && r@ == fold_compared(all, outs);
                assert forall|i: int|
                    0 <= i < all.len() implies fold_compared(all.take(i), outs.take(i)).len() > 0
                    ==> (#[trigger] outs[i]) == fold_compared(all.take(i), outs.take(i))[0].cmp_spec(
                    &all[i],
                ) by {}
                lemma_fold_by_order(all, outs);
            }
        }
        r
    }
}

/// What folding `items` with comparison outcomes `outs` keeps: the first item
/// starts the kept ones; each later item is compared with the first kept one
/// (`outs[i]` is how that one compares to item `i`): on `Less` the item
/// replaces them all, on `Equal` it joins them, on `Greater` it is dropped.
pub open spec fn fold_compared<T>(items: Seq<T>, outs: Seq<Ordering>) -> Seq<T>
    decreases items.len(),
{
    if items.len() == 0 {
        Seq::empty()
    } else {
        let acc = fold_compared(items.drop_last(), outs.drop_last());
        if acc.len() == 0 {
            seq![items.last()]
        } else {
            match outs.last() {
                Ordering::Less => seq![items.last()],
                Ordering::Equal => acc.push(items.last()),
                Ordering::Greater => acc,
            }
        }
    }
}

/// The same fold, with each outcome given by the type's own order.
pub open spec fn fold_by_order<T: Ord>(items: Seq<T>) -> Seq<T>
    decreases items.len(),
{
    if items.len() == 0 {
        Seq::empty()
    } else {
        let acc = fold_by_order(items.drop_last());
        if acc.len() == 0 {
            seq![items.last()]
        } else {
            match acc[0].cmp_spec(&items.last()) {
                Ordering::Less => seq![items.last()],
                Ordering::Equal => acc.push(items.last()),
                Ordering::Greater => acc,
            }
        }
    }
}

/// The outcomes `outs` are those that `f` gave when `items` were folded.
pub open spec fn outcomes_of<T, F: Fn(&T, &T) -> Ordering>(
    items: Seq<T>,
    outs: Seq<Ordering>,
    f: F,
) -> bool {
    &&& outs.len() == items.len()
    &&& forall|i: int|
        0 <= i < items.len() ==> fold_compared(items.take(i), outs.take(i)).len() > 0 ==> f.ensures(
            (&fold_compared(items.take(i), outs.take(i))[0], &items[i]),
            #[trigger] outs[i],
        )
}

/// Folds `items` with the comparison `f`, as `fold_compared` describes: `f`
/// is called with the first kept item and each later item. Since `Less`
/// makes the later item replace the kept ones, a comparison that orders its
/// arguments ascending keeps the items that compare greatest.
pub fn mins_by<T, F: Fn(&T, &T) -> Ordering>(items: Vec<T>, f: F) -> (r: Vec<T>)
    requires
        forall|a: &T, b: &T| f.requires((a, b)),
    ensures
        exists|outs: Seq<Ordering>| outcomes_of(items@, outs, f) && r@ == fold_compared(items@, outs),
{
    let ghost all = items@;
    let n = items.len();
    let mut rest = items;
    let mut acc: Vec<T> = Vec::new();
    let ghost mut outs: Seq<Ordering> = Seq::empty();
    let mut i: usize = 0;
    let ghost mut k: int = 0;
    while i < n
        invariant
            n == all.len(),
            i <= n,
            k == i,
            rest@ == all.skip(k),
            outs.len() == i,
            forall|a: &T, b: &T| f.requires((a, b)),
            forall|j: int|
                0 <= j < i ==> fold_compared(all.take(j), outs.take(j)).len() > 0 ==> f.ensures(
                    (&fold_compared(all.take(j), outs.take(j))[0], &all[j]),
                    #[trigger] outs[j],
                ),
            acc@ == fold_compared(all.take(k), outs),
        decreases n - i,
    {
        let item = rest.remove(0);
        assert(item == all[k]);
        let ghost old_outs = outs;
        let ghost items = all.take(k + 1);
        assert(items.drop_last() =~= all.take(k));
        if acc.len() == 0 {
            proof {
                outs = outs.push(Ordering::Equal);
            }
            assert(outs.drop_last() =~= old_outs);
            acc.push(item);
            assert(acc@ =~= fold_compared(items, outs));
        } else {
            let o = f(&acc[0], &item);
            proof {
                outs = outs.push(o);
            }
            assert(outs.drop_last() =~= old_outs);
            match o {
                Ordering::Less => {
                    acc = Vec::new();
                    acc.push(item);
                },
                Ordering::Equal => {
                    acc.push(item);
                },
                Ordering::Greater => {},
            }
            assert(acc@ =~= fold_compared(items, outs));
        }
        assert forall|j: int|
            0 <= j < i + 1 implies fold_compared(all.take(j), outs.take(j)).len() > 0 ==> f.ensures(
            (&fold_compared(all.take(j), outs.take(j))[0], &all[j]),
            #[trigger] outs[j],
        ) by {
            assert(outs.take(j) =~= old_outs.take(j)) by {
                if j < i {
                }
            }
            if j == i {
                assert(old_outs.take(j) =~= old_outs);
            }
        }
        i = i + 1;
        proof {
            k = k + 1;
        }
        assert(rest@ =~= all.skip(k));
    }
    assert(all.take(k) =~= all);
    assert(outs.take(k) =~= outs);
    acc
}

proof fn lemma_fold_by_order<T: Ord>(items: Seq<T>, outs: Seq<Ordering>)
    requires
        outs.len() == items.len(),
        forall|i: int|
            0 <= i < items.len() ==> fold_compared(items.take(i), outs.take(i)).len() > 0 ==> (
            #[trigger] outs[i]) == fold_compared(items.take(i), outs.take(i))[0].cmp_spec(
                &items[i],
            ),
    ensures
        fold_compared(items, outs) == fold_by_order(items),
    decreases items.len(),
{
    if items.len() > 0 {
        let n = items.len() - 1;
        let items1 = items.drop_last();
        let outs1 = outs.drop_last();
        assert forall|i: int|
            0 <= i < items1.len() implies fold_compared(items1.take(i), outs1.take(i)).len() > 0 ==> (
        #[trigger] outs1[i]) == fold_compared(items1.take(i), outs1.take(i))[0].cmp_spec(
            &items1[i],
        ) by {
            assert(items1.take(i) =~= items.take(i));
            assert(outs1.take(i) =~= outs.take(i));
            assert(outs1[i] == outs[i]);
            assert(items1[i] == items[i]);
        }
        lemma_fold_by_order(items1, outs1);
        assert(items.take(n) =~= items1);
        assert(outs.take(n) =~= outs1);
    }
}

} // verus!
