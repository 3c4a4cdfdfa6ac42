//! Stable ordering of items by a key.
use vstd::prelude::*;

use crate::text::chars;

verus! {

/// A key by which items are put in order: a total preorder.
pub trait SortKey: Sized {
    /// `self` does not come after `other`.
    spec fn upto(&self, other: &Self) -> bool;

    /// Any two keys are related.
    proof fn lemma_total(&self, other: &Self)
        ensures
            self.upto(other) || other.upto(self),
    ;

    /// The relation composes.
    proof fn lemma_transitive(&self, mid: &Self, other: &Self)
        requires
            self.upto(mid),
            mid.upto(other),
        ensures
            self.upto(other),
    ;

    /// Whether `self` does not come after `other`.
    fn not_after(&self, other: &Self) -> (r: bool)
        ensures
            r == self.upto(other),
    ;
}

/// In the sorted order item `a` stands before item `b`: by key, and by
/// position where the keys do not decide.
pub open spec fn precedes<K: SortKey>(keys: Seq<K>, a: int, b: int) -> bool {
    keys[a].upto(&keys[b]) && (a < b || !keys[b].upto(&keys[a]))
}

/// `p` lists the positions of `keys`, each once, in sorted order.
pub open spec fn is_order<K: SortKey>(p: Seq<int>, keys: Seq<K>) -> bool {
    &&& p.len() == keys.len()
    &&& forall|i: int| 0 <= i < p.len() ==> 0 <= #[trigger] p[i] < keys.len()
    &&& forall|i: int, j: int|
        0 <= i < j < p.len() ==> precedes(keys, #[trigger] p[i], #[trigger] p[j])
}

/// The positions as integers.
pub open spec fn positions(p: Seq<usize>) -> Seq<int> {
    Seq::new(p.len(), |i: int| p[i] as int)
}

/// The items in the order of the positions.
pub open spec fn arranged<T>(items: Seq<T>, p: Seq<int>) -> Seq<T> {
    Seq::new(p.len(), |i: int| items[p[i]])
}

/// No position occurs twice in an order.
pub proof fn lemma_order_distinct<K: SortKey>(p: Seq<int>, keys: Seq<K>)
    requires
        is_order(p, keys),
    ensures
        p.no_duplicates(),
{
    assert forall|i: int, j: int| 0 <= i < p.len() && 0 <= j < p.len() && i != j implies p[i]
        != p[j] by {
        if i < j {
            assert(precedes(keys, p[i], p[j]));
        } else {
            assert(precedes(keys, p[j], p[i]));
        }
    }
}

/// The place in the ordered positions where the key of item `n` belongs.
fn insertion_point<K: SortKey>(p: &Vec<usize>, keys: &Vec<K>, n: usize) -> (at: usize)
    requires
        n < keys@.len(),
        p@.len() == n,
        forall|i: int| 0 <= i < n ==> #[trigger] p@[i] < n,
        forall|i: int, j: int|
            0 <= i < j < n ==> precedes(keys@, #[trigger] p@[i] as int, #[trigger] p@[j] as int),
    ensures
        at <= n,
        forall|i: int| 0 <= i < at ==> keys@[#[trigger] p@[i] as int].upto(&keys@[n as int]),
        forall|i: int| at <= i < n ==> !keys@[#[trigger] p@[i] as int].upto(&keys@[n as int]),
{
    let mut lo: usize = 0;
    let mut hi: usize = n;
    while lo < hi
        invariant
            lo <= hi <= n < keys@.len(),
            p@.len() == n,
            forall|i: int| 0 <= i < n ==> #[trigger] p@[i] < n,
            forall|i: int, j: int|
                0 <= i < j < n ==> precedes(keys@, #[trigger] p@[i] as int, #[trigger] p@[j] as int),
            forall|i: int| 0 <= i < lo ==> keys@[#[trigger] p@[i] as int].upto(&keys@[n as int]),
            forall|i: int| hi <= i < n ==> !keys@[#[trigger] p@[i] as int].upto(&keys@[n as int]),
        decreases hi - lo,
    {
        let mid: usize = lo + (hi - lo) / 2;
        if keys[p[mid]].not_after(&keys[n]) {
            proof {
                assert forall|i: int| 0 <= i < mid + 1 implies keys@[#[trigger] p@[i] as int].upto(
                    &keys@[n as int],
                ) by {
                    if i < mid {
                        assert(precedes(keys@, p@[i] as int, p@[mid as int] as int));
                        keys@[p@[i] as int].lemma_transitive(
                            &keys@[p@[mid as int] as int],
                            &keys@[n as int],
                        );
                    }
                }
            }
            lo = mid + 1;
        } else {
            proof {
                assert forall|i: int| mid <= i < n implies !keys@[#[trigger] p@[i] as int].upto(
                    &keys@[n as int],
                ) by {
                    if mid < i && keys@[p@[i] as int].upto(&keys@[n as int]) {
                        assert(precedes(keys@, p@[mid as int] as int, p@[i] as int));
                        keys@[p@[mid as int] as int].lemma_transitive(
                            &keys@[p@[i] as int],
                            &keys@[n as int],
                        );
                    }
                }
            }
            hi = mid;
        }
    }
    lo
}

/// The positions of the keys in sorted order, equal keys in the order in
/// which they stand.
pub fn sorted_positions<K: SortKey>(keys: &Vec<K>) -> (p: Vec<usize>)
    ensures
        is_order(positions(p@), keys@),
        p@.len() == keys@.len(),
        forall|i: int| 0 <= i < p@.len() ==> #[trigger] p@[i] < keys@.len(),
{
    let mut p: Vec<usize> = Vec::new();
    let mut n: usize = 0;
    while n < keys.len()
        invariant
            n <= keys@.len(),
            p@.len() == n,
            forall|i: int| 0 <= i < n ==> #[trigger] p@[i] < n,
            forall|i: int, j: int|
                0 <= i < j < n ==> precedes(keys@, #[trigger] p@[i] as int, #[trigger] p@[j] as int),
        decreases keys@.len() - n,
    {
        let at: usize = insertion_point(&p, keys, n);
        let ghost before = p@;
        p.insert(at, n);
        proof {
            assert forall|i: int, j: int| 0 <= i < j < n + 1 implies precedes(
                keys@,
                #[trigger] p@[i] as int,
                #[trigger] p@[j] as int,
            ) by {
                if j == at {
                    assert(p@[i] == before[i]);
                } else if i == at {
                    assert(p@[j] == before[j - 1]);
                    keys@[n as int].lemma_total(&keys@[before[j - 1] as int]);
                } else {
                    let bi = if i < at {
                        i
                    } else {
                        i - 1
                    };
                    let bj = if j < at {
                        j
                    } else {
                        j - 1
                    };
                    assert(p@[i] == before[bi]);
                    assert(p@[j] == before[bj]);
                    assert(precedes(keys@, before[bi] as int, before[bj] as int));
                }
            }
            assert forall|i: int| 0 <= i < n + 1 implies #[trigger] p@[i] < n + 1 by {
                if i < at {
                    assert(p@[i] == before[i]);
                } else if i > at {
                    assert(p@[i] == before[i - 1]);
                }
            }
        }
        n += 1;
    }
    p
}

/// The items in the order of the positions.
pub fn arrange<T>(items: Vec<T>, p: &Vec<usize>) -> (r: Vec<T>)
    requires
        p@.len() == items@.len(),
        positions(p@).no_duplicates(),
        forall|i: int| 0 <= i < p@.len() ==> #[trigger] p@[i] < items@.len(),
    ensures
        r@ == arranged(items@, positions(p@)),
{
    let ghost all = items@;
    let mut slots: Vec<Option<T>> = Vec::new();
    let mut items = items;
    while items.len() > 0
        invariant
            items@.len() + slots@.len() == all.len(),
            items@ == all.take(items@.len() as int),
            forall|i: int| 0 <= i < slots@.len() ==> #[trigger] slots@[i] == Some(all[all.len() - 1 - i]),
        decreases items@.len(),
    {
        let item: Option<T> = items.pop();
        slots.push(item);
    }
    let n: usize = slots.len();
    let mut out: Vec<T> = Vec::new();
    let mut i: usize = 0;
    while i < p.len()
        invariant
            i <= p@.len(),
            n == all.len() == slots@.len() == p@.len(),
            forall|k: int| 0 <= k < p@.len() ==> #[trigger] p@[k] < n,
            positions(p@).no_duplicates(),
            out@ == arranged(all, positions(p@).take(i as int)),
            forall|k: int| i <= k < p@.len() ==> slots@[n - 1 - #[trigger] p@[k]] == Some(all[p@[k] as int]),
        decreases p@.len() - i,
    {
        let at: usize = n - 1 - p[i];
        let mut taken: Option<T> = None;
        std::mem::swap(&mut taken, &mut slots[at]);
        assert forall|k: int| i < k < p@.len() implies #[trigger] p@[k] != p@[i as int] by {
            assert(positions(p@)[k] != positions(p@)[i as int]);
        }
        if let Some(item) = taken {
            out.push(item);
        }
        assert(positions(p@).take(i + 1) =~= positions(p@).take(i as int).push(p@[i as int] as int));
        i += 1;
    }
    assert(positions(p@).take(p@.len() as int) =~= positions(p@));
    out
}

impl SortKey for i128 {
    open spec fn upto(&self, other: &Self) -> bool {
        *self <= *other
    }

    proof fn lemma_total(&self, other: &Self) {
    }

    proof fn lemma_transitive(&self, mid: &Self, other: &Self) {
    }

    fn not_after(&self, other: &Self) -> bool {
        *self <= *other
    }
}

/// Dictionary order by code point.
pub open spec fn lex_upto(a: Seq<char>, b: Seq<char>) -> bool
    decreases a.len(),
{
    if a.len() == 0 {
        true
    } else if b.len() == 0 {
        false
    } else if a[0] != b[0] {
        a[0] < b[0]
    } else {
        lex_upto(a.drop_first(), b.drop_first())
    }
}

pub proof fn lemma_lex_total(a: Seq<char>, b: Seq<char>)
    ensures
        lex_upto(a, b) || lex_upto(b, a),
    decreases a.len(),
{
    if a.len() > 0 && b.len() > 0 && a[0] == b[0] {
        lemma_lex_total(a.drop_first(), b.drop_first());
    }
}

pub proof fn lemma_lex_transitive(a: Seq<char>, b: Seq<char>, c: Seq<char>)
    requires
        lex_upto(a, b),
        lex_upto(b, c),
    ensures
        lex_upto(a, c),
    decreases a.len(),
{
    if a.len() > 0 && b.len() > 0 && c.len() > 0 && a[0] == b[0] && b[0] == c[0] {
        lemma_lex_transitive(a.drop_first(), b.drop_first(), c.drop_first());
    }
}

/// Whether `a` does not come after `b` in dictionary order by code point.
pub fn text_not_after(a: &str, b: &str) -> (r: bool)
    ensures
        r == lex_upto(a@, b@),
{
    let av: Vec<char> = chars::to_chars(a);
    let bv: Vec<char> = chars::to_chars(b);
    let mut i: usize = 0;
    assert(a@.skip(0) =~= a@);
    assert(b@.skip(0) =~= b@);
    while i < av.len() && i < bv.len()
        invariant
            i <= av@.len(),
            i <= bv@.len(),
            av@ == a@,
            bv@ == b@,
            lex_upto(a@, b@) == lex_upto(a@.skip(i as int), b@.skip(i as int)),
        decreases av@.len() - i,
    {
        if av[i] != bv[i] {
            return av[i] < bv[i];
        }
        assert(a@.skip(i as int).drop_first() =~= a@.skip(i + 1));
        assert(b@.skip(i as int).drop_first() =~= b@.skip(i + 1));
        i += 1;
    }
    i == av.len()
}

impl SortKey for String {
    open spec fn upto(&self, other: &Self) -> bool {
        lex_upto(self@, other@)
    }

    proof fn lemma_total(&self, other: &Self) {
        lemma_lex_total(self@, other@);
    }

    proof fn lemma_transitive(&self, mid: &Self, other: &Self) {
        lemma_lex_transitive(self@, mid@, other@);
    }

    fn not_after(&self, other: &Self) -> bool {
        text_not_after(self.as_str(), other.as_str())
    }
}

/// A key that turns the order of another round.
pub struct Reversed<K> {
    /// The key whose order is turned.
    pub key: K,
}

impl<K: SortKey> SortKey for Reversed<K> {
    open spec fn upto(&self, other: &Self) -> bool {
        other.key.upto(&self.key)
    }

    proof fn lemma_total(&self, other: &Self) {
        self.key.lemma_total(&other.key);
    }

    proof fn lemma_transitive(&self, mid: &Self, other: &Self) {
        other.key.lemma_transitive(&mid.key, &self.key);
    }

    fn not_after(&self, other: &Self) -> bool {
        other.key.not_after(&self.key)
    }
}

/// Two keys, of which the second decides where the first does not.
pub struct Then<A, B> {
    /// The key that decides first.
    pub major: A,
    /// The key that decides where the first does not.
    pub minor: B,
}

impl<A: SortKey, B: SortKey> SortKey for Then<A, B> {
    open spec fn upto(&self, other: &Self) -> bool {
        self.major.upto(&other.major) && (!other.major.upto(&self.major) || self.minor.upto(
            &other.minor,
        ))
    }

    proof fn lemma_total(&self, other: &Self) {
        self.major.lemma_total(&other.major);
        self.minor.lemma_total(&other.minor);
    }

    proof fn lemma_transitive(&self, mid: &Self, other: &Self) {
        self.major.lemma_transitive(&mid.major, &other.major);
        if other.major.upto(&self.major) {
            mid.major.lemma_transitive(&other.major, &self.major);
            other.major.lemma_transitive(&self.major, &mid.major);
            self.minor.lemma_transitive(&mid.minor, &other.minor);
        }
    }

    fn not_after(&self, other: &Self) -> bool {
        self.major.not_after(&other.major) && (!other.major.not_after(&self.major)
            || self.minor.not_after(&other.minor))
    }
}

/// Dictionary order: a text comes before every longer one that begins with it, and
/// of two texts the first characters in which they differ decide.
pub proof fn law_dictionary(front: Seq<char>, a: Seq<char>, b: Seq<char>)
    ensures
        lex_upto(front, front + b),
        b.len() > 0 ==> !lex_upto(front + b, front),
        a.len() > 0 && b.len() > 0 && a[0] != b[0] ==> lex_upto(front + a, front + b) == (a[0]
            < b[0]),
    decreases front.len(),
{
    if front.len() == 0 {
        assert(front + a =~= a);
        assert(front + b =~= b);
    } else {
        let rest = front.drop_first();
        law_dictionary(rest, a, b);
        assert((front + a).drop_first() =~= rest + a);
        assert((front + b).drop_first() =~= rest + b);
    }
}

/// A sorted list has every item once.
pub proof fn law_arranged<T, K: SortKey>(items: Seq<T>, p: Seq<int>, keys: Seq<K>, i: int) -> (k: int)
    requires
        is_order(p, keys),
        items.len() == keys.len(),
        0 <= i < items.len(),
    ensures
        arranged(items, p).len() == items.len(),
        0 <= k < p.len(),
        p[k] == i,
        arranged(items, p)[k] == items[i],
{
    lemma_order_distinct(p, keys);
    lemma_hits_all(p, keys.len() as int, i)
}

/// Distinct places below `n`, as many as there are, have every one of them.
proof fn lemma_hits_all(p: Seq<int>, n: int, i: int) -> (k: int)
    requires
        p.no_duplicates(),
        p.len() == n,
        0 <= i < n,
        forall|j: int| 0 <= j < p.len() ==> 0 <= #[trigger] p[j] < n,
    ensures
        0 <= k < p.len(),
        p[k] == i,
{
    if !p.contains(i) {
        let s = p.to_set();
        let all = Set::new(|x: int| 0 <= x < n);
        p.unique_seq_to_set();
        vstd::set_lib::lemma_int_range(0, n);
        assert(all =~= vstd::set_lib::set_int_range(0, n));
        assert(s.subset_of(all.remove(i))) by {
            assert forall|x: int| s.contains(x) implies all.remove(i).contains(x) by {
                let j = choose|j: int| 0 <= j < p.len() && p[j] == x;
                assert(0 <= p[j] < n);
            }
        }
        vstd::set_lib::lemma_len_subset(s, all.remove(i));
    }
    choose|k: int| 0 <= k < p.len() && p[k] == i
}

} // verus!
