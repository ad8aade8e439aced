use vstd::multiset::{group_multiset_axioms, Multiset};
use vstd::prelude::*;
use vstd::seq_lib::{group_to_multiset_ensures, lemma_multiset_commutative};

verus! {

/// A key type whose executable equality is equality of its view.
pub trait DiffKey: View + Sized {
    fn key_eq(&self, other: &Self) -> (r: bool)
        ensures
            r == (self@ == other@),
    ;
}

impl DiffKey for String {
    fn key_eq(&self, other: &Self) -> (r: bool) {
        *self == *other
    }
}

impl DiffKey for i32 {
    fn key_eq(&self, other: &Self) -> (r: bool) {
        *self == *other
    }
}


/// Outcome of comparing an old and a new collection by key.
pub struct DifferentiationResult<T> {
    /// Elements of the new collection that no old element claimed.
    pub added: Vec<T>,
    /// Elements of the old collection that found no partner in the new one.
    pub deleted: Vec<T>,
    /// Pairs `(old, new)` of elements sharing a key.
    pub kept: Vec<(T, T)>,
}

/// `key` describes, on views, the keys that `on` extracts.
pub open spec fn agrees<T, U: View, F: Fn(&T) -> U>(on: F, key: spec_fn(T) -> U::V) -> bool {
    forall|x: T, k: U| #[trigger] on.ensures((&x,), k) ==> k@ == key(x)
}

/// Index of the first element of `s` whose key is `k`, or -1 when there is none.
pub open spec fn first_match<T, V>(s: Seq<T>, key: spec_fn(T) -> V, k: V) -> int
    decreases s.len(),
{
    if s.len() == 0 {
        -1
    } else if key(s[0]) == k {
        0
    } else {
        let r = first_match(s.drop_first(), key, k);
        if r < 0 {
            -1
        } else {
            r + 1
        }
    }
}

/// First-match differentiation, as `(added, deleted, kept)`: each old element, in order,
/// claims the first unclaimed new element with the same key, or is deleted; the new
/// elements left unclaimed are added.
pub open spec fn diff<T, V>(old_s: Seq<T>, new_s: Seq<T>, key: spec_fn(T) -> V) -> (
    Seq<T>,
    Seq<T>,
    Seq<(T, T)>,
)
    decreases old_s.len(),
{
    if old_s.len() == 0 {
        (new_s, Seq::empty(), Seq::empty())
    } else {
        let o = old_s[0];
        let j = first_match(new_s, key, key(o));
        if j < 0 {
            let r = diff(old_s.drop_first(), new_s, key);
            (r.0, seq![o] + r.1, r.2)
        } else {
            let r = diff(old_s.drop_first(), new_s.remove(j), key);
            (r.0, r.1, seq![(o, new_s[j])] + r.2)
        }
    }
}

pub open spec fn firsts<T>(s: Seq<(T, T)>) -> Seq<T> {
    s.map_values(|p: (T, T)| p.0)
}

pub open spec fn seconds<T>(s: Seq<(T, T)>) -> Seq<T> {
    s.map_values(|p: (T, T)| p.1)
}

pub open spec fn keys<T, V>(s: Seq<T>, key: spec_fn(T) -> V) -> Seq<V> {
    s.map_values(|x: T| key(x))
}

proof fn lemma_first_match_bounds<T, V>(s: Seq<T>, key: spec_fn(T) -> V, k: V)
    ensures
        -1 <= first_match(s, key, k) < s.len(),
        first_match(s, key, k) >= 0 ==> key(s[first_match(s, key, k)]) == k,
        first_match(s, key, k) < 0 ==> forall|m: int| 0 <= m < s.len() ==> key(s[m]) != k,
    decreases s.len(),
{
    if s.len() > 0 {
        lemma_first_match_bounds(s.drop_first(), key, k);
        if first_match(s, key, k) < 0 {
            assert forall|m: int| 0 <= m < s.len() implies key(s[m]) != k by {
                if m > 0 {
                    assert(s[m] == s.drop_first()[m - 1]);
                }
            }
        }
    }
}

proof fn lemma_first_match_at<T, V>(s: Seq<T>, key: spec_fn(T) -> V, k: V, j: int)
    requires
        0 <= j <= s.len(),
        forall|m: int| 0 <= m < j ==> key(s[m]) != k,
        j < s.len() ==> key(s[j]) == k,
    ensures
        first_match(s, key, k) == (if j < s.len() {
            j
        } else {
            -1
        }),
    decreases j,
{
    if j > 0 {
        let t = s.drop_first();
        assert forall|m: int| 0 <= m < j - 1 implies key(t[m]) != k by {
            assert(t[m] == s[m + 1]);
        }
        if j < s.len() {
            assert(t[j - 1] == s[j]);
        }
        lemma_first_match_at(t, key, k, j - 1);
    }
}

proof fn lemma_diff_shape<T, V>(old_s: Seq<T>, new_s: Seq<T>, key: spec_fn(T) -> V)
    ensures
        ({
            let r = diff(old_s, new_s, key);
            &&& seconds(r.2).to_multiset().add(r.0.to_multiset()) == new_s.to_multiset()
            &&& firsts(r.2).to_multiset().add(r.1.to_multiset()) == old_s.to_multiset()
            &&& r.2.len() + r.0.len() == new_s.len()
            &&& r.2.len() + r.1.len() == old_s.len()
            &&& forall|i: int| 0 <= i < r.2.len() ==> key(#[trigger] r.2[i].0) == key(r.2[i].1)
            &&& forall|a: T| #[trigger] r.0.contains(a) ==> new_s.contains(a)
            &&& forall|i: int, m: int|
                0 <= i < r.0.len() && 0 <= m < r.1.len() ==> key(#[trigger] r.0[i]) != key(#[trigger] r.1[m],
                )
        }),
    decreases old_s.len(),
{
    broadcast use group_multiset_axioms, lemma_multiset_commutative, group_to_multiset_ensures;

    let r = diff(old_s, new_s, key);
    if old_s.len() == 0 {
        assert(seconds(r.2) =~= Seq::empty());
        assert(firsts(r.2) =~= Seq::empty());
        assert(old_s =~= Seq::empty());
        assert(seconds(r.2).to_multiset() =~= Multiset::empty());
        assert(firsts(r.2).to_multiset() =~= Multiset::empty());
        assert(r.1.to_multiset() =~= Multiset::empty());
        assert(seconds(r.2).to_multiset().add(r.0.to_multiset()) =~= new_s.to_multiset());
        assert(firsts(r.2).to_multiset().add(r.1.to_multiset()) =~= old_s.to_multiset());
    } else {
        let o = old_s[0];
        let rest = old_s.drop_first();
        assert(old_s =~= seq![o] + rest);
        let k = key(o);
        let j = first_match(new_s, key, k);
        lemma_first_match_bounds(new_s, key, k);
        if j < 0 {
            let q = diff(rest, new_s, key);
            lemma_diff_shape(rest, new_s, key);
            assert(r.1 == seq![o] + q.1);
            assert forall|m: int| 0 < m < r.1.len() implies r.1[m] == q.1[m - 1] by {}
            assert(r.0 == q.0 && r.2 == q.2);
            assert(firsts(r.2).to_multiset().add(r.1.to_multiset()) =~= old_s.to_multiset());
            assert forall|i: int, m: int|
                0 <= i < r.0.len() && 0 <= m < r.1.len() implies key(#[trigger] r.0[i])
                != key(#[trigger] r.1[m]) by {
                if m == 0 {
                    assert(r.0.contains(r.0[i]));
                    let w = choose|w: int| 0 <= w < new_s.len() && new_s[w] == r.0[i];
                    assert(key(new_s[w]) != k);
                } else {
                    assert(r.1[m] == q.1[m - 1]);
                }
            }
        } else {
            let n = new_s[j];
            let new2 = new_s.remove(j);
            let q = diff(rest, new2, key);
            lemma_diff_shape(rest, new2, key);
            assert(r.2 == seq![(o, n)] + q.2);
            assert forall|i: int| 0 < i < r.2.len() implies r.2[i] == q.2[i - 1] by {}
            assert(r.0 == q.0 && r.1 == q.1);
            assert(seconds(r.2) =~= seq![n] + seconds(q.2));
            assert(firsts(r.2) =~= seq![o] + firsts(q.2));
            assert(new2.to_multiset() == new_s.to_multiset().remove(n));
            assert(new_s.to_multiset().count(n) > 0);
            assert(new_s.to_multiset() =~= new2.to_multiset().insert(n));
            assert(seconds(r.2).to_multiset().add(r.0.to_multiset()) =~= new_s.to_multiset());
            assert(firsts(r.2).to_multiset().add(r.1.to_multiset()) =~= old_s.to_multiset());
            assert forall|i: int| 0 <= i < r.2.len() implies key(#[trigger] r.2[i].0)
                == key(r.2[i].1) by {
                if i > 0 {
                    assert(r.2[i] == q.2[i - 1]);
                }
            }
            assert forall|a: T| #[trigger] r.0.contains(a) implies new_s.contains(a) by {
                let w = choose|w: int| 0 <= w < new2.len() && new2[w] == a;
                if w < j {
                    assert(new_s[w] == a);
                } else {
                    assert(new_s[w + 1] == a);
                }
            }
        }
    }
}

/// Every new element ends up either added or as the second half of a kept pair, every old
/// element either deleted or as the first half of a kept pair, counted with multiplicity;
/// kept pairs share a key, and no deleted element shares a key with an added one.
pub proof fn lemma_diff_correct<T, V>(old_s: Seq<T>, new_s: Seq<T>, key: spec_fn(T) -> V)
    ensures
        ({
            let r = diff(old_s, new_s, key);
            &&& seconds(r.2).to_multiset().add(r.0.to_multiset()) == new_s.to_multiset()
            &&& firsts(r.2).to_multiset().add(r.1.to_multiset()) == old_s.to_multiset()
            &&& seconds(r.2).to_set() + r.0.to_set() == new_s.to_set()
            &&& firsts(r.2).to_set() + r.1.to_set() == old_s.to_set()
            &&& r.2.len() + r.0.len() == new_s.len()
            &&& r.2.len() + r.1.len() == old_s.len()
            &&& forall|i: int| 0 <= i < r.2.len() ==> key(#[trigger] r.2[i].0) == key(r.2[i].1)
            &&& forall|i: int, m: int|
                0 <= i < r.0.len() && 0 <= m < r.1.len() ==> key(#[trigger] r.0[i]) != key(#[trigger] r.1[m],
                )
        }),
{
    broadcast use group_multiset_axioms, group_to_multiset_ensures;

    lemma_diff_shape(old_s, new_s, key);
    let r = diff(old_s, new_s, key);
    assert forall|x: T|
        new_s.to_set().contains(x) <==> (seconds(r.2).to_set() + r.0.to_set()).contains(x) by {
        assert(new_s.to_multiset().count(x) == seconds(r.2).to_multiset().count(x)
            + r.0.to_multiset().count(x));
    }
    assert forall|x: T|
        old_s.to_set().contains(x) <==> (firsts(r.2).to_set() + r.1.to_set()).contains(x) by {
        assert(old_s.to_multiset().count(x) == firsts(r.2).to_multiset().count(x)
            + r.1.to_multiset().count(x));
    }
    assert(seconds(r.2).to_set() + r.0.to_set() =~= new_s.to_set());
    assert(firsts(r.2).to_set() + r.1.to_set() =~= old_s.to_set());
}

proof fn lemma_diff_balanced<T, V>(old_s: Seq<T>, new_s: Seq<T>, key: spec_fn(T) -> V)
    requires
        keys(old_s, key).to_multiset() == keys(new_s, key).to_multiset(),
    ensures
        diff(old_s, new_s, key).0.len() == 0,
        diff(old_s, new_s, key).1.len() == 0,
    decreases old_s.len(),
{
    broadcast use group_multiset_axioms, group_to_multiset_ensures;

    if old_s.len() == 0 {
        assert(keys(new_s, key).len() == keys(new_s, key).to_multiset().len());
    } else {
        let o = old_s[0];
        let k = key(o);
        let ko = keys(old_s, key);
        let kn = keys(new_s, key);
        assert(ko[0] == k);
        assert(ko.contains(k));
        assert(ko.to_multiset().count(k) > 0);
        assert(kn.to_multiset().count(k) > 0);
        assert(kn.contains(k));
        let m = choose|m: int| 0 <= m < kn.len() && kn[m] == k;
        lemma_first_match_bounds(new_s, key, k);
        let j = first_match(new_s, key, k);
        assert(key(new_s[m]) == k);
        let new2 = new_s.remove(j);
        let rest = old_s.drop_first();
        assert(keys(new2, key) =~= kn.remove(j));
        assert(keys(rest, key) =~= ko.remove(0));
        assert(kn[j] == k);
        lemma_diff_balanced(rest, new2, key);
    }
}

/// Differentiating a collection against itself adds nothing and deletes nothing: every
/// element is kept, paired with an element of the same key.
pub proof fn lemma_diff_self<T, V>(xs: Seq<T>, key: spec_fn(T) -> V)
    ensures
        ({
            let r = diff(xs, xs, key);
            &&& r.0.len() == 0
            &&& r.1.len() == 0
            &&& r.2.len() == xs.len()
            &&& forall|i: int| 0 <= i < r.2.len() ==> key(#[trigger] r.2[i].0) == key(r.2[i].1)
        }),
{
    lemma_diff_balanced(xs, xs, key);
    lemma_diff_correct(xs, xs, key);
}

/// Some element of `s` has key `k`.
pub open spec fn has_key<T, V>(s: Seq<T>, key: spec_fn(T) -> V, k: V) -> bool {
    exists|j: int| 0 <= j < s.len() && key(s[j]) == k
}

/// When every new element's key occurs among the old elements and the new keys are
/// distinct, nothing is added.
pub proof fn lemma_diff_covered<T, V>(old_s: Seq<T>, new_s: Seq<T>, key: spec_fn(T) -> V)
    requires
        forall|i: int| 0 <= i < new_s.len() ==> has_key(old_s, key, key(#[trigger] new_s[i])),
        forall|i: int, j: int|
            0 <= i < j < new_s.len() ==> key(#[trigger] new_s[i]) != key(#[trigger] new_s[j]),
    ensures
        diff(old_s, new_s, key).0.len() == 0,
    decreases old_s.len(),
{
    if old_s.len() == 0 {
        if new_s.len() > 0 {
            assert(has_key(old_s, key, key(new_s[0])));
        }
    } else {
        let o = old_s[0];
        let rest = old_s.drop_first();
        let k = key(o);
        lemma_first_match_bounds(new_s, key, k);
        let j = first_match(new_s, key, k);
        let new2 = if j < 0 {
            new_s
        } else {
            new_s.remove(j)
        };
        assert forall|i: int| 0 <= i < new2.len() implies key(#[trigger] new2[i]) != k by {
            if j >= 0 {
                if i < j {
                    assert(new2[i] == new_s[i]);
                } else {
                    assert(new2[i] == new_s[i + 1]);
                }
            }
        }
        assert forall|i: int| 0 <= i < new2.len() implies has_key(rest, key, key(#[trigger] new2[i])) by {
            let src = if j < 0 || i < j {
                i
            } else {
                i + 1
            };
            assert(new2[i] == new_s[src]);
            assert(has_key(old_s, key, key(new_s[src])));
            let m = choose|m: int| 0 <= m < old_s.len() && key(old_s[m]) == key(new_s[src]);
            assert(m != 0);
            assert(rest[m - 1] == old_s[m]);
        }
        assert forall|a: int, b: int| 0 <= a < b < new2.len() implies key(#[trigger] new2[a])
            != key(#[trigger] new2[b]) by {
            let sa = if j < 0 || a < j {
                a
            } else {
                a + 1
            };
            let sb = if j < 0 || b < j {
                b
            } else {
                b + 1
            };
            assert(new2[a] == new_s[sa]);
            assert(new2[b] == new_s[sb]);
        }
        lemma_diff_covered(rest, new2, key);
    }
}

/// Compares `old_items` with `new_items` by the key that `on` extracts: each old element, in
/// order, is paired with the first not yet paired new element of equal key. Unpaired old
/// elements are deleted and unpaired new elements added, both in their original order.
pub fn differentiate_on<T, U: DiffKey, F: Fn(&T) -> U>(
    old_items: Vec<T>,
    new_items: Vec<T>,
    on: F,
) -> (r: DifferentiationResult<T>)
    requires
        forall|x: &T| #[trigger] on.requires((x,)),
    ensures
        forall|key: spec_fn(T) -> U::V|
            agrees(on, key) ==> (r.added@, r.deleted@, r.kept@) == #[trigger] diff(
                old_items@,
                new_items@,
                key,
            ),
{
    let ghost old0 = old_items@;
    let ghost new0 = new_items@;
    let mut olds = old_items;
    let mut news = new_items;
    let mut deleted: Vec<T> = Vec::new();
    let mut kept: Vec<(T, T)> = Vec::new();
    while olds.len() > 0
        invariant
            forall|x: &T| #[trigger] on.requires((x,)),
            forall|key: spec_fn(T) -> U::V|
                agrees(on, key) ==> {
                    let d = diff(olds@, news@, key);
                    let t = #[trigger] diff(old0, new0, key);
                    &&& t.0 == d.0
                    &&& t.1 == deleted@ + d.1
                    &&& t.2 == kept@ + d.2
                },
        decreases olds.len(),
    {
        let ghost prev_olds = olds@;
        let ghost prev_news = news@;
        let ghost prev_deleted = deleted@;
        let ghost prev_kept = kept@;
        let o = olds.remove(0);
        assert(olds@ =~= prev_olds.drop_first());
        let ko = on(&o);
        let mut j: usize = 0;
        let mut found = false;
        while j < news.len() && !found
            invariant
                forall|x: &T| #[trigger] on.requires((x,)),
                news@ == prev_news,
                on.ensures((&o,), ko),
                j <= news.len(),
                found ==> j < news.len(),
                forall|key: spec_fn(T) -> U::V|
                    #[trigger] agrees(on, key) ==> {
                        &&& found ==> key(news@[j as int]) == key(o)
                        &&& forall|m: int| 0 <= m < j ==> key(#[trigger] news@[m]) != key(o)
                    },
            decreases news.len() - j + (if found {
                0int
            } else {
                1int
            }),
        {
            let kn = on(&news[j]);
            if kn.key_eq(&ko) {
                found = true;
            } else {
                j = j + 1;
            }
        }
        if found {
            let n = news.remove(j);
            kept.push((o, n));
        } else {
            deleted.push(o);
        }
        assert forall|key: spec_fn(T) -> U::V| agrees(on, key) implies {
            let d = diff(olds@, news@, key);
            let t = #[trigger] diff(old0, new0, key);
            &&& t.0 == d.0
            &&& t.1 == deleted@ + d.1
            &&& t.2 == kept@ + d.2
        } by {
            lemma_first_match_at(prev_news, key, key(o), j as int);
            let d = diff(olds@, news@, key);
            if found {
                assert(kept@ + d.2 =~= prev_kept + (seq![(o, prev_news[j as int])] + d.2));
            } else {
                assert(deleted@ + d.1 =~= prev_deleted + (seq![o] + d.1));
            }
        }
    }
    assert forall|key: spec_fn(T) -> U::V| agrees(on, key) implies (deleted@, kept@) == {
        let t = #[trigger] diff(old0, new0, key);
        (t.1, t.2)
    } by {
        assert(deleted@ =~= deleted@ + diff(olds@, news@, key).1);
        assert(kept@ =~= kept@ + diff(olds@, news@, key).2);
    }
    DifferentiationResult { added: news, deleted, kept }
}

/// Differentiation of two collections whose elements are their own keys.
pub fn _differentiate<T: DiffKey + Copy>(old_items: Vec<T>, new_items: Vec<T>) -> (r:
    DifferentiationResult<T>)
    ensures
        (r.added@, r.deleted@, r.kept@) == diff(old_items@, new_items@, |x: T| x@),
{
    let on = |x: &T| -> (k: T)
        ensures
            k == *x,
        { *x };
    let r = differentiate_on(old_items, new_items, on);
    assert(agrees(on, |x: T| x@));
    r
}

} // verus!
