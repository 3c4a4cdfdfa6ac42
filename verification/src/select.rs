//! Keeping the first of several items that share a key.
use vstd::prelude::*;

use crate::text;

verus! {

/// No earlier key equals the key at `i`.
pub open spec fn is_first(keys: Seq<Seq<char>>, i: int) -> bool {
    forall|j: int| 0 <= j < i ==> keys[j] != keys[i]
}

/// The items whose key no earlier item has, in order; item `i` has key `i`.
pub open spec fn firsts<T>(items: Seq<T>, keys: Seq<Seq<char>>) -> Seq<T>
    decreases items.len(),
{
    if items.len() == 0 {
        items
    } else if is_first(keys, items.len() - 1) {
        firsts(items.drop_last(), keys).push(items.last())
    } else {
        firsts(items.drop_last(), keys)
    }
}

/// Whether no earlier key equals the key at `i`.
pub fn first_with_key(keys: &Vec<String>, i: usize) -> (r: bool)
    requires
        i < keys@.len(),
    ensures
        r == is_first(text::views(keys@), i as int),
{
    let mut j: usize = 0;
    while j < i
        invariant
            j <= i < keys@.len(),
            forall|k: int| 0 <= k < j ==> text::views(keys@)[k] != text::views(keys@)[i as int],
        decreases i - j,
    {
        if keys[j].eq(&keys[i]) {
            assert(text::views(keys@)[j as int] == text::views(keys@)[i as int]);
            return false;
        }
        j += 1;
    }
    true
}

/// The strings whose key no earlier string has, in order.
pub fn keep_firsts(items: &Vec<String>, keys: &Vec<String>) -> (r: Vec<String>)
    requires
        items@.len() == keys@.len(),
    ensures
        text::views(r@) == firsts(text::views(items@), text::views(keys@)),
{
    let mut out: Vec<String> = Vec::new();
    let mut i: usize = 0;
    while i < items.len()
        invariant
            i <= items@.len(),
            items@.len() == keys@.len(),
            text::views(out@) == firsts(text::views(items@).take(i as int), text::views(keys@)),
        decreases items@.len() - i,
    {
        assert(text::views(items@).take(i + 1).drop_last() =~= text::views(items@).take(i as int));
        let ghost before = text::views(out@);
        if first_with_key(keys, i) {
            out.push(items[i].clone());
            assert(text::views(out@) =~= before.push(items@[i as int]@));
        }
        i += 1;
    }
    assert(text::views(items@).take(items@.len() as int) =~= text::views(items@));
    out
}

/// The positions below `n` whose key no earlier position has, in order.
pub open spec fn first_places(keys: Seq<Seq<char>>, n: int) -> Seq<int>
    decreases n,
{
    if n <= 0 {
        Seq::empty()
    } else if is_first(keys, n - 1) {
        first_places(keys, n - 1).push(n - 1)
    } else {
        first_places(keys, n - 1)
    }
}

/// The items that are kept are those at the positions of first keys: they keep
/// their order, and no two have the same key.
pub proof fn lemma_firsts<T>(items: Seq<T>, keys: Seq<Seq<char>>)
    ensures
        ({
            let places = first_places(keys, items.len() as int);
            let kept = firsts(items, keys);
            &&& kept.len() == places.len()
            &&& forall|k: int|
                0 <= k < places.len() ==> 0 <= #[trigger] places[k] < items.len() && kept[k]
                    == items[places[k]]
            &&& forall|j: int, k: int|
                0 <= j < k < places.len() ==> #[trigger] places[j] < #[trigger] places[k]
                    && keys[places[j]] != keys[places[k]]
        }),
    decreases items.len(),
{
    let n = items.len() as int;
    if n > 0 {
        lemma_firsts(items.drop_last(), keys);
        let before = first_places(keys, n - 1);
        let places = first_places(keys, n);
        let shorter = firsts(items.drop_last(), keys);
        let kept = firsts(items, keys);
        assert forall|k: int| 0 <= k < places.len() implies 0 <= #[trigger] places[k] < items.len()
            && kept[k] == items[places[k]] by {
            if k < before.len() {
                assert(places[k] == before[k]);
                assert(kept[k] == shorter[k]);
            }
        }
        assert forall|j: int, k: int| 0 <= j < k < places.len() implies #[trigger] places[j]
            < #[trigger] places[k] && keys[places[j]] != keys[places[k]] by {
            assert(places[j] == before[j]);
            if k < before.len() {
                assert(places[k] == before[k]);
            }
        }
    }
}

/// Every key below `n` is the key of a first position below `n`.
pub proof fn lemma_first_place(keys: Seq<Seq<char>>, n: int, i: int) -> (k: int)
    requires
        0 <= i < n,
    ensures
        0 <= k < first_places(keys, n).len(),
        keys[first_places(keys, n)[k]] == keys[i],
    decreases n,
{
    let before = first_places(keys, n - 1);
    let places = first_places(keys, n);
    if i < n - 1 {
        let k = lemma_first_place(keys, n - 1, i);
        assert(places[k] == before[k]);
        k
    } else if is_first(keys, n - 1) {
        assert(places[places.len() - 1] == n - 1);
        places.len() - 1
    } else {
        let j = choose|j: int| 0 <= j < n - 1 && #[trigger] keys[j] == keys[n - 1];
        let k = lemma_first_place(keys, n - 1, j);
        assert(places[k] == before[k]);
        k
    }
}

/// The items whose flag is set, in order; item `i` has flag `i`.
pub open spec fn kept<T>(items: Seq<T>, keep: Seq<bool>) -> Seq<T>
    decreases items.len(),
{
    if items.len() == 0 {
        items
    } else if keep[items.len() - 1] {
        kept(items.drop_last(), keep).push(items.last())
    } else {
        kept(items.drop_last(), keep)
    }
}

proof fn lemma_kept_split<T>(items: Seq<T>, keep: Seq<bool>, n: int)
    requires
        0 <= n <= items.len() <= keep.len(),
    ensures
        kept(items, keep) == kept(items.take(n), keep) + kept(items.skip(n), keep.skip(n)),
    decreases items.len(),
{
    if n == items.len() {
        assert(items.take(n) =~= items);
        assert(kept(items.skip(n), keep.skip(n)) =~= Seq::empty());
        assert(kept(items, keep) + Seq::<T>::empty() =~= kept(items, keep));
    } else {
        let front = items.drop_last();
        lemma_kept_split(front, keep, n);
        assert(front.take(n) =~= items.take(n));
        assert(items.skip(n).drop_last() =~= front.skip(n));
        assert(items.skip(n).last() == items.last());
        assert(keep.skip(n)[items.skip(n).len() - 1] == keep[items.len() - 1]);
        assert(kept(items, keep) =~= kept(items.take(n), keep) + kept(
            items.skip(n),
            keep.skip(n),
        ));
    }
}

/// The items whose flag is set, in order.
pub fn keep_flagged<T>(items: Vec<T>, keep: &Vec<bool>) -> (r: Vec<T>)
    requires
        items@.len() == keep@.len(),
    ensures
        r@ == kept(items@, keep@),
{
    let ghost all = items@;
    let mut items = items;
    let mut back: Vec<T> = Vec::new();
    while items.len() > 0
        invariant
            items@.len() <= all.len() == keep@.len(),
            items@ == all.take(items@.len() as int),
            back@.reverse() == kept(
                all.skip(items@.len() as int),
                keep@.skip(items@.len() as int),
            ),
        decreases items@.len(),
    {
        let ghost n = items@.len() as int;
        let ghost so_far = back@;
        if let Some(item) = items.pop() {
            proof {
                let rest = all.skip(n - 1);
                let flags = keep@.skip(n - 1);
                lemma_kept_split(rest, flags, 1);
                assert(rest.skip(1) =~= all.skip(n));
                assert(flags.skip(1) =~= keep@.skip(n));
                let one = rest.take(1);
                assert(one =~= seq![item]);
                assert(one.drop_last() =~= Seq::empty());
                assert(flags[0] == keep@[n - 1]);
                assert(kept(one.drop_last(), flags) =~= Seq::empty());
                reveal_with_fuel(kept, 2);
                assert(kept(one, flags) =~= if keep@[n - 1] {
                    seq![item]
                } else {
                    Seq::empty()
                });
            }
            if keep[items.len()] {
                back.push(item);
                assert(back@.reverse() =~= seq![item] + so_far.reverse());
            } else {
                assert(Seq::<T>::empty() + so_far.reverse() =~= so_far.reverse());
            }
        }
    }
    assert(all.skip(0) =~= all);
    assert(keep@.skip(0) =~= keep@);
    turned(back)
}

/// The items in reverse order.
pub fn turned<T>(items: Vec<T>) -> (r: Vec<T>)
    ensures
        r@ == items@.reverse(),
{
    let ghost all = items@;
    let mut items = items;
    let mut out: Vec<T> = Vec::new();
    while items.len() > 0
        invariant
            items@ == all.take(items@.len() as int),
            items@.len() <= all.len(),
            out@ == all.skip(items@.len() as int).reverse(),
        decreases items@.len(),
    {
        let ghost n = items@.len();
        let ghost so_far = out@;
        if let Some(item) = items.pop() {
            out.push(item);
            assert(all.skip(n - 1).reverse() =~= so_far.push(item));
        }
    }
    assert(all.skip(0) =~= all);
    out
}

proof fn lemma_firsts_kept<T>(items: Seq<T>, keys: Seq<Seq<char>>, keep: Seq<bool>)
    requires
        forall|i: int| 0 <= i < items.len() ==> #[trigger] keep[i] == is_first(keys, i),
    ensures
        firsts(items, keys) == kept(items, keep),
    decreases items.len(),
{
    if items.len() > 0 {
        lemma_firsts_kept(items.drop_last(), keys, keep);
        assert(keep[items.len() - 1] == is_first(keys, items.len() - 1));
    }
}

/// The items whose key no earlier item has, in order.
pub fn keep_first_items<T>(items: Vec<T>, keys: &Vec<String>) -> (r: Vec<T>)
    requires
        items@.len() == keys@.len(),
    ensures
        r@ == firsts(items@, text::views(keys@)),
{
    let mut keep: Vec<bool> = Vec::new();
    let mut i: usize = 0;
    while i < keys.len()
        invariant
            i <= keys@.len(),
            keep@.len() == i,
            forall|k: int| 0 <= k < i ==> #[trigger] keep@[k] == is_first(text::views(keys@), k),
        decreases keys@.len() - i,
    {
        keep.push(first_with_key(keys, i));
        i += 1;
    }
    proof {
        lemma_firsts_kept(items@, text::views(keys@), keep@);
    }
    keep_flagged(items, &keep)
}

/// `ps` has the places below `n` where `p` holds: all of them, no other, and in
/// order.
pub open spec fn exactly(ps: Seq<int>, n: int, p: spec_fn(int) -> bool) -> bool {
    &&& forall|a: int, b: int| 0 <= a < b < ps.len() ==> #[trigger] ps[a] < #[trigger] ps[b]
    &&& forall|a: int| 0 <= a < ps.len() ==> 0 <= #[trigger] ps[a] < n && p(ps[a])
    &&& forall|i: int| 0 <= i < n && #[trigger] p(i) ==> ps.contains(i)
}

/// What is built place by place, with what `g` makes of each place where `p`
/// holds, is what `g` makes of exactly those places.
pub proof fn lemma_exactly<U>(
    n: int,
    p: spec_fn(int) -> bool,
    g: spec_fn(int) -> U,
    f: spec_fn(int) -> Seq<U>,
) -> (ps: Seq<int>)
    requires
        n >= 0,
        f(0) == Seq::<U>::empty(),
        forall|k: int|
            0 < k <= n ==> #[trigger] f(k) == if p(k - 1) {
                f(k - 1).push(g(k - 1))
            } else {
                f(k - 1)
            },
    ensures
        exactly(ps, n, p),
        f(n) == Seq::new(ps.len(), |k: int| g(ps[k])),
    decreases n,
{
    if n == 0 {
        let none = Seq::<int>::empty();
        assert(f(n) =~= Seq::new(none.len(), |k: int| g(none[k])));
        none
    } else {
        let before = lemma_exactly(n - 1, p, g, f);
        let ps = if p(n - 1) {
            before.push(n - 1)
        } else {
            before
        };
        assert(f(n) =~= Seq::new(ps.len(), |k: int| g(ps[k])));
        assert forall|i: int| 0 <= i < n && #[trigger] p(i) implies ps.contains(i) by {
            if i < n - 1 {
                assert(before.contains(i));
                let a = choose|a: int| 0 <= a < before.len() && before[a] == i;
                assert(ps[a] == i);
            } else {
                assert(ps[ps.len() - 1] == i);
            }
        }
        ps
    }
}

/// Of the items, exactly those are kept that no earlier item shares its key
/// with, in order.
pub proof fn law_firsts<T>(items: Seq<T>, keys: Seq<Seq<char>>) -> (ps: Seq<int>)
    requires
        items.len() == keys.len(),
    ensures
        exactly(
            ps,
            items.len() as int,
            |i: int| forall|j: int| 0 <= j < i ==> keys[j] != keys[i],
        ),
        firsts(items, keys) == Seq::new(ps.len(), |k: int| items[ps[k]]),
{
    let p = |i: int| forall|j: int| 0 <= j < i ==> keys[j] != keys[i];
    let f = |n: int| firsts(items.take(n), keys);
    assert forall|n: int| 0 < n <= items.len() implies #[trigger] f(n) == if p(n - 1) {
        f(n - 1).push(items[n - 1])
    } else {
        f(n - 1)
    } by {
        assert(items.take(n).drop_last() =~= items.take(n - 1));
        assert(p(n - 1) == is_first(keys, n - 1));
    }
    assert(items.take(0) =~= Seq::empty());
    assert(items.take(items.len() as int) =~= items);
    lemma_exactly(items.len() as int, p, |i: int| items[i], f)
}

/// Of the items, exactly those are kept whose flag is set, in order.
pub proof fn law_kept<T>(items: Seq<T>, keep: Seq<bool>) -> (ps: Seq<int>)
    requires
        items.len() == keep.len(),
    ensures
        exactly(ps, items.len() as int, |i: int| keep[i]),
        kept(items, keep) == Seq::new(ps.len(), |k: int| items[ps[k]]),
{
    let p = |i: int| keep[i];
    let f = |n: int| kept(items.take(n), keep);
    assert forall|n: int| 0 < n <= items.len() implies #[trigger] f(n) == if p(n - 1) {
        f(n - 1).push(items[n - 1])
    } else {
        f(n - 1)
    } by {
        assert(items.take(n).drop_last() =~= items.take(n - 1));
    }
    assert(items.take(0) =~= Seq::empty());
    assert(items.take(items.len() as int) =~= items);
    lemma_exactly(items.len() as int, p, |i: int| items[i], f)
}

/// Increasing places below `n` that miss none are all places below `n`.
pub proof fn lemma_all_places(ps: Seq<int>, n: int)
    requires
        n >= 0,
        forall|a: int, b: int| 0 <= a < b < ps.len() ==> #[trigger] ps[a] < #[trigger] ps[b],
        forall|a: int| 0 <= a < ps.len() ==> 0 <= #[trigger] ps[a] < n,
        forall|i: int| 0 <= i < n ==> ps.contains(i),
    ensures
        ps.len() == n,
        forall|a: int| 0 <= a < n ==> #[trigger] ps[a] == a,
    decreases n,
{
    if n == 0 {
        if ps.len() > 0 {
            assert(ps[0] < n);
        }
    } else {
        assert(ps.contains(n - 1));
        let a = choose|a: int| 0 <= a < ps.len() && ps[a] == n - 1;
        if a < ps.len() - 1 {
            assert(ps[a] < ps[ps.len() - 1]);
        }
        let front = ps.drop_last();
        assert forall|i: int| 0 <= i < n - 1 implies front.contains(i) by {
            assert(ps.contains(i));
            let b = choose|b: int| 0 <= b < ps.len() && ps[b] == i;
            assert(front[b] == i);
        }
        assert forall|b: int| 0 <= b < front.len() implies 0 <= #[trigger] front[b] < n - 1 by {
            assert(ps[b] < ps[ps.len() - 1]);
        }
        lemma_all_places(front, n - 1);
        assert forall|b: int| 0 <= b < n implies #[trigger] ps[b] == b by {
            if b < n - 1 {
                assert(front[b] == b);
            }
        }
    }
}

/// What is counted place by place where `p` holds is the number of those places.
pub proof fn lemma_counted(n: int, p: spec_fn(int) -> bool, f: spec_fn(int) -> nat) -> (ps: Seq<int>)
    requires
        n >= 0,
        f(0) == 0,
        forall|k: int|
            0 < k <= n ==> #[trigger] f(k) == if p(k - 1) {
                f(k - 1) + 1
            } else {
                f(k - 1)
            },
    ensures
        exactly(ps, n, p),
        f(n) == ps.len(),
{
    let g = |k: int| Seq::new(f(k), |i: int| true);
    assert forall|k: int| 0 < k <= n implies #[trigger] g(k) == if p(k - 1) {
        g(k - 1).push(true)
    } else {
        g(k - 1)
    } by {
        assert(f(k) == if p(k - 1) {
            f(k - 1) + 1
        } else {
            f(k - 1)
        });
        if p(k - 1) {
            assert(g(k) =~= g(k - 1).push(true));
        } else {
            assert(g(k) =~= g(k - 1));
        }
    }
    assert(g(0) =~= Seq::empty());
    let ps = lemma_exactly(n, p, |i: int| true, g);
    assert(g(n).len() == ps.len());
    ps
}

/// Choosing among places that were chosen is choosing by both at once.
pub proof fn lemma_chosen_twice(
    ps: Seq<int>,
    qs: Seq<int>,
    n: int,
    p: spec_fn(int) -> bool,
    q: spec_fn(int) -> bool,
) -> (r: Seq<int>)
    requires
        exactly(ps, n, p),
        exactly(qs, ps.len() as int, |k: int| q(ps[k])),
    ensures
        exactly(r, n, |i: int| p(i) && q(i)),
        r == Seq::new(qs.len(), |k: int| ps[qs[k]]),
{
    let r = Seq::new(qs.len(), |k: int| ps[qs[k]]);
    let inner = |k: int| q(ps[k]);
    let both = |i: int| p(i) && q(i);
    assert forall|a: int, b: int| 0 <= a < b < r.len() implies #[trigger] r[a] < #[trigger] r[b] by {
        assert(qs[a] < qs[b]);
        assert(ps[qs[a]] < ps[qs[b]]);
    }
    assert forall|a: int| 0 <= a < r.len() implies 0 <= #[trigger] r[a] < n && both(r[a]) by {
        assert(0 <= qs[a] < ps.len() && inner(qs[a]));
        assert(p(ps[qs[a]]));
    }
    assert forall|i: int| 0 <= i < n && #[trigger] both(i) implies r.contains(i) by {
        assert(p(i));
        assert(ps.contains(i));
        let k = choose|k: int| 0 <= k < ps.len() && ps[k] == i;
        assert(inner(k));
        assert(qs.contains(k));
        let a = choose|a: int| 0 <= a < qs.len() && qs[a] == k;
        assert(r[a] == i);
    }
    r
}

} // verus!
