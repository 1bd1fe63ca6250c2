//! Maps and sets that keep their keys in order.
//!
//! A map is modelled by a `Map` from the models of its keys to the models of its values. The
//! order in which keys come out is a function of that model alone: see [`sorted_keys`].
use vstd::prelude::*;

use crate::text;

verus! {

/// Keys with a strict total order on their models.
pub trait OrderedKey: View + Sized {
    /// The strict order.
    spec fn less(a: Self::V, b: Self::V) -> bool;

    proof fn less_irreflexive(a: Self::V)
        ensures
            !Self::less(a, a),
    ;

    proof fn less_transitive(a: Self::V, b: Self::V, c: Self::V)
        requires
            Self::less(a, b),
            Self::less(b, c),
        ensures
            Self::less(a, c),
    ;

    proof fn less_total(a: Self::V, b: Self::V)
        ensures
            Self::less(a, b) || Self::less(b, a) || a == b,
    ;

    /// Whether this key comes before the other.
    fn before(&self, other: &Self) -> (r: bool)
        ensures
            r == Self::less(self@, other@),
    ;
}

/// Values that can be copied with their model kept.
pub trait Replicate: View + Sized {
    /// A copy with the same model.
    fn replicate(&self) -> (r: Self)
        ensures
            r@ == self@,
    ;
}

impl OrderedKey for String {
    open spec fn less(a: Seq<char>, b: Seq<char>) -> bool {
        text::text_less(a, b)
    }

    proof fn less_irreflexive(a: Seq<char>) {
        text::lemma_text_less_irreflexive(a);
    }

    proof fn less_transitive(a: Seq<char>, b: Seq<char>, c: Seq<char>) {
        text::lemma_text_less_transitive(a, b, c);
    }

    proof fn less_total(a: Seq<char>, b: Seq<char>) {
        text::lemma_text_less_total(a, b);
    }

    fn before(&self, other: &Self) -> (r: bool) {
        text::precedes(self.as_str(), other.as_str())
    }
}

impl OrderedKey for i64 {
    open spec fn less(a: i64, b: i64) -> bool {
        a < b
    }

    proof fn less_irreflexive(a: i64) {
    }

    proof fn less_transitive(a: i64, b: i64, c: i64) {
    }

    proof fn less_total(a: i64, b: i64) {
    }

    fn before(&self, other: &Self) -> (r: bool) {
        *self < *other
    }
}

impl Replicate for String {
    fn replicate(&self) -> (r: Self) {
        self.clone()
    }
}

impl Replicate for i64 {
    fn replicate(&self) -> (r: Self) {
        *self
    }
}

impl Replicate for u64 {
    fn replicate(&self) -> (r: Self) {
        *self
    }
}

impl Replicate for usize {
    fn replicate(&self) -> (r: Self) {
        *self
    }
}

/// A strictly ascending list of key models.
pub open spec fn strictly_sorted<K: OrderedKey>(keys: Seq<K::V>) -> bool {
    forall|i: int, j: int| 0 <= i < j < keys.len() ==> K::less(#[trigger] keys[i], #[trigger] keys[j])
}

/// `keys` lists the members of `domain` in ascending order, each once.
pub open spec fn lists_sorted<K: OrderedKey>(keys: Seq<K::V>, domain: Set<K::V>) -> bool {
    &&& strictly_sorted::<K>(keys)
    &&& forall|k: K::V| domain.contains(k) <==> keys.contains(k)
}

/// The members of a finite set of key models in ascending order.
pub open spec fn sorted_keys<K: OrderedKey>(domain: Set<K::V>) -> Seq<K::V> {
    choose|keys: Seq<K::V>| lists_sorted::<K>(keys, domain)
}

/// Two ascending lists of the same members are the same list.
pub proof fn lemma_sorted_unique<K: OrderedKey>(a: Seq<K::V>, b: Seq<K::V>)
    requires
        strictly_sorted::<K>(a),
        strictly_sorted::<K>(b),
        forall|k: K::V| a.contains(k) <==> b.contains(k),
    ensures
        a == b,
    decreases a.len(),
{
    if a.len() == 0 {
        if b.len() > 0 {
            assert(b.contains(b[0]));
            assert(a.contains(b[0]));
        }
        assert(a =~= b);
    } else {
        let x = a.last();
        assert(a[a.len() - 1] == x);
        assert(a.contains(x));
        assert(b.contains(x));
        assert(b.len() > 0);
        let y = b.last();
        assert(b[b.len() - 1] == y);
        assert(b.contains(y));
        assert(a.contains(y));
        let i = choose|i: int| 0 <= i < a.len() && a[i] == y;
        let j = choose|j: int| 0 <= j < b.len() && b[j] == x;
        if x != y {
            assert(K::less(a[i], a[a.len() - 1]));
            assert(K::less(b[j], b[b.len() - 1]));
            K::less_transitive(x, y, x);
            K::less_irreflexive(x);
        }
        let ta = a.drop_last();
        let tb = b.drop_last();
        assert forall|k: K::V| ta.contains(k) implies tb.contains(k) by {
            let m = choose|m: int| 0 <= m < ta.len() && ta[m] == k;
            assert(a[m] == k);
            assert(K::less(a[m], a[a.len() - 1]));
            K::less_irreflexive(x);
            assert(a.contains(k));
            assert(b.contains(k));
            let n = choose|n: int| 0 <= n < b.len() && b[n] == k;
            assert(tb[n] == k);
        }
        assert forall|k: K::V| tb.contains(k) implies ta.contains(k) by {
            let m = choose|m: int| 0 <= m < tb.len() && tb[m] == k;
            assert(b[m] == k);
            assert(K::less(b[m], b[b.len() - 1]));
            K::less_irreflexive(x);
            assert(b.contains(k));
            assert(a.contains(k));
            let n = choose|n: int| 0 <= n < a.len() && a[n] == k;
            assert(ta[n] == k);
        }
        assert forall|i: int, j: int| 0 <= i < j < ta.len() implies K::less(
            #[trigger] ta[i],
            #[trigger] ta[j],
        ) by {
            assert(K::less(a[i], a[j]));
        }
        assert forall|i: int, j: int| 0 <= i < j < tb.len() implies K::less(
            #[trigger] tb[i],
            #[trigger] tb[j],
        ) by {
            assert(K::less(b[i], b[j]));
        }
        lemma_sorted_unique::<K>(ta, tb);
        assert(a =~= ta.push(x));
        assert(b =~= tb.push(y));
    }
}

/// A list that names the members of a set in ascending order is its sorted list.
pub proof fn lemma_is_sorted_keys<K: OrderedKey>(keys: Seq<K::V>, domain: Set<K::V>)
    requires
        lists_sorted::<K>(keys, domain),
    ensures
        sorted_keys::<K>(domain) == keys,
{
    lemma_sorted_unique::<K>(keys, sorted_keys::<K>(domain));
}

/// How many keys at the beginning of a list come before a key.
spec fn rank_of<K: OrderedKey>(keys: Seq<K::V>, key: K::V) -> int
    decreases keys.len(),
{
    if keys.len() == 0 || !K::less(keys[0], key) {
        0
    } else {
        1 + rank_of::<K>(keys.drop_first(), key)
    }
}

proof fn lemma_rank<K: OrderedKey>(keys: Seq<K::V>, key: K::V)
    ensures
        0 <= rank_of::<K>(keys, key) <= keys.len(),
        forall|i: int|
            0 <= i < rank_of::<K>(keys, key) ==> K::less(#[trigger] keys[i], key),
        rank_of::<K>(keys, key) < keys.len() ==> !K::less(keys[rank_of::<K>(keys, key)], key),
    decreases keys.len(),
{
    if keys.len() > 0 && K::less(keys[0], key) {
        let rest = keys.drop_first();
        lemma_rank::<K>(rest, key);
        assert forall|i: int| 0 <= i < rank_of::<K>(keys, key) implies K::less(
            #[trigger] keys[i],
            key,
        ) by {
            if i > 0 {
                assert(keys[i] == rest[i - 1]);
            }
        }
    }
}

/// Every finite set of key models has its sorted list.
pub proof fn lemma_finite_sorted<K: OrderedKey>(domain: Set<K::V>)
    requires
        domain.finite(),
    ensures
        lists_sorted::<K>(sorted_keys::<K>(domain), domain),
    decreases domain.len(),
{
    if domain.len() == 0 {
        let none = Seq::<K::V>::empty();
        assert forall|k: K::V| domain.contains(k) <==> none.contains(k) by {
            if domain.contains(k) {
                assert(domain.remove(k).len() < domain.len());
            }
        }
        assert(lists_sorted::<K>(none, domain));
    } else {
        let key = domain.choose();
        let rest = domain.remove(key);
        lemma_finite_sorted::<K>(rest);
        let old = sorted_keys::<K>(rest);
        let at = rank_of::<K>(old, key);
        lemma_rank::<K>(old, key);
        let new = old.insert(at, key);
        assert forall|k: K::V| domain.contains(k) <==> new.contains(k) by {
            if domain.contains(k) {
                if k == key {
                    assert(new[at] == k);
                } else {
                    assert(old.contains(k));
                    let i = choose|i: int| 0 <= i < old.len() && old[i] == k;
                    assert(new[if i < at { i } else { i + 1 }] == k);
                }
            }
            if new.contains(k) {
                let i = choose|i: int| 0 <= i < new.len() && new[i] == k;
                if i != at {
                    let j = if i < at { i } else { i - 1 };
                    assert(old[j] == k);
                    assert(old.contains(k));
                }
            }
        }
        assert forall|i: int, j: int| 0 <= i < j < new.len() implies K::less(
            #[trigger] new[i],
            #[trigger] new[j],
        ) by {
            if j == at {
                assert(new[i] == old[i]);
            } else if i == at {
                assert(new[j] == old[j - 1]);
                assert(old.contains(old[at]));
                assert(old[at] != key);
                K::less_total(old[at], key);
                if j - 1 > at {
                    assert(K::less(old[at], old[j - 1]));
                    K::less_transitive(key, old[at], old[j - 1]);
                }
            } else {
                let a = if i < at { i } else { i - 1 };
                let b = if j < at { j } else { j - 1 };
                assert(new[i] == old[a]);
                assert(new[j] == old[b]);
            }
        }
        assert(lists_sorted::<K>(new, domain));
    }
}

/// The number of members of a set is the length of its sorted list.
pub proof fn lemma_sorted_len<K: OrderedKey>(keys: Seq<K::V>, domain: Set<K::V>)
    requires
        lists_sorted::<K>(keys, domain),
    ensures
        domain.finite(),
        domain.len() == keys.len(),
{
    assert forall|i: int, j: int| 0 <= i < keys.len() && 0 <= j < keys.len() && i != j implies keys[i]
        != keys[j] by {
        if i < j {
            assert(K::less(keys[i], keys[j]));
            K::less_irreflexive(keys[i]);
        } else {
            assert(K::less(keys[j], keys[i]));
            K::less_irreflexive(keys[i]);
        }
    }
    assert(keys.no_duplicates());
    keys.unique_seq_to_set();
    assert(keys.to_set() =~= domain);
    vstd::seq_lib::seq_to_set_is_finite(keys);
}

// ---------------------------------------------------------------------------------------------
// The map
// ---------------------------------------------------------------------------------------------

/// A map whose keys come out in ascending order.
#[derive(Debug, PartialEq, Eq)]
pub struct OrderedMap<K: OrderedKey, V: View> {
    entries: Vec<(K, V)>,
}

spec fn key_models<K: OrderedKey, V: View>(entries: Seq<(K, V)>) -> Seq<K::V> {
    Seq::new(entries.len(), |i: int| entries[i].0@)
}

spec fn index_of_key<K: OrderedKey, V: View>(entries: Seq<(K, V)>, key: K::V) -> int {
    choose|i: int| 0 <= i < entries.len() && (#[trigger] entries[i]).0@ == key
}

spec fn entries_map<K: OrderedKey, V: View>(entries: Seq<(K, V)>) -> Map<K::V, V::V> {
    Map::new(
        |k: K::V| key_models(entries).contains(k),
        |k: K::V| entries[index_of_key(entries, k)].1@,
    )
}

spec fn entries_sorted<K: OrderedKey, V: View>(entries: Seq<(K, V)>) -> bool {
    strictly_sorted::<K>(key_models(entries))
}

proof fn lemma_entry<K: OrderedKey, V: View>(entries: Seq<(K, V)>, i: int)
    requires
        entries_sorted(entries),
        0 <= i < entries.len(),
    ensures
        entries_map(entries).contains_key(entries[i].0@),
        entries_map(entries)[entries[i].0@] == entries[i].1@,
{
    let k = entries[i].0@;
    assert(key_models(entries)[i] == k);
    assert(key_models(entries).contains(k));
    let j = index_of_key(entries, k);
    assert(0 <= j < entries.len() && entries[j].0@ == k);
    if j != i {
        K::less_irreflexive(k);
        let keys = key_models(entries);
        assert(keys[j] == k);
        if i < j {
            assert(K::less(keys[i], keys[j]));
        } else {
            assert(K::less(keys[j], keys[i]));
        }
    }
}

proof fn lemma_absent<K: OrderedKey, V: View>(entries: Seq<(K, V)>, key: K::V, at: int)
    requires
        entries_sorted(entries),
        0 <= at <= entries.len(),
        forall|i: int| 0 <= i < at ==> K::less(#[trigger] entries[i].0@, key),
        at < entries.len() ==> K::less(key, entries[at].0@),
    ensures
        !entries_map(entries).contains_key(key),
{
    if key_models(entries).contains(key) {
        let i = choose|i: int| 0 <= i < key_models(entries).len() && key_models(entries)[i] == key;
        assert(entries[i].0@ == key);
        K::less_irreflexive(key);
        if i >= at {
            let keys = key_models(entries);
            if i > at {
                assert(K::less(keys[at], keys[i]));
                K::less_transitive(key, keys[at], key);
            }
        }
    }
}

proof fn lemma_map_listed<K: OrderedKey, V: View>(entries: Seq<(K, V)>)
    requires
        entries_sorted(entries),
    ensures
        lists_sorted::<K>(key_models(entries), entries_map(entries).dom()),
        sorted_keys::<K>(entries_map(entries).dom()) == key_models(entries),
        entries_map(entries).dom().finite(),
        entries_map(entries).dom().len() == entries.len(),
{
    let keys = key_models(entries);
    let dom = entries_map(entries).dom();
    assert(lists_sorted::<K>(keys, dom));
    lemma_is_sorted_keys::<K>(keys, dom);
    lemma_sorted_len::<K>(keys, dom);
}

proof fn lemma_inserted<K: OrderedKey, V: View>(entries: Seq<(K, V)>, at: int, key: K, value: V)
    requires
        entries_sorted(entries),
        0 <= at <= entries.len(),
        forall|i: int| 0 <= i < at ==> K::less(#[trigger] entries[i].0@, key@),
        at < entries.len() ==> K::less(key@, entries[at].0@),
    ensures
        entries_sorted(entries.insert(at, (key, value))),
        entries_map(entries.insert(at, (key, value))) == entries_map(entries).insert(key@, value@),
{
    let after = entries.insert(at, (key, value));
    let keys = key_models(entries);
    let more = key_models(after);
    assert forall|i: int, j: int| 0 <= i < j < more.len() implies K::less(
        #[trigger] more[i],
        #[trigger] more[j],
    ) by {
        if i < at && j < at {
            assert(K::less(keys[i], keys[j]));
        } else if i < at && j == at {
            assert(K::less(entries[i].0@, key@));
        } else if i < at {
            assert(K::less(keys[i], keys[j - 1]));
        } else if i == at {
            assert(K::less(key@, keys[at]));
            if j - 1 > at {
                assert(K::less(keys[at], keys[j - 1]));
                K::less_transitive(key@, keys[at], keys[j - 1]);
            }
        } else {
            assert(K::less(keys[i - 1], keys[j - 1]));
        }
    }
    let m = entries_map(entries).insert(key@, value@);
    let n = entries_map(after);
    lemma_absent(entries, key@, at);
    assert forall|k: K::V| m.contains_key(k) <==> n.contains_key(k) by {
        if keys.contains(k) {
            let i = choose|i: int| 0 <= i < keys.len() && keys[i] == k;
            assert(more[if i < at { i } else { i + 1 }] == k);
        }
        assert(more[at] == key@);
        if more.contains(k) {
            let i = choose|i: int| 0 <= i < more.len() && more[i] == k;
            if i < at {
                assert(keys[i] == k);
            } else if i > at {
                assert(keys[i - 1] == k);
            }
        }
    }
    assert forall|k: K::V| m.contains_key(k) implies m[k] == n[k] by {
        assert(more.contains(k));
        let i = choose|i: int| 0 <= i < more.len() && more[i] == k;
        lemma_entry(after, i);
        if i < at {
            lemma_entry(entries, i);
        } else if i > at {
            lemma_entry(entries, i - 1);
        }
    }
    assert(m =~= n);
}

proof fn lemma_replaced<K: OrderedKey, V: View>(entries: Seq<(K, V)>, at: int, key: K, value: V)
    requires
        entries_sorted(entries),
        0 <= at < entries.len(),
        entries[at].0@ == key@,
    ensures
        entries_sorted(entries.update(at, (key, value))),
        entries_map(entries.update(at, (key, value))) == entries_map(entries).insert(key@, value@),
{
    let after = entries.update(at, (key, value));
    assert(key_models(after) =~= key_models(entries));
    let m = entries_map(entries).insert(key@, value@);
    let n = entries_map(after);
    lemma_entry(entries, at);
    assert forall|k: K::V| m.contains_key(k) implies m[k] == n[k] by {
        assert(key_models(entries).contains(k));
        let i = choose|i: int| 0 <= i < entries.len() && key_models(entries)[i] == k;
        lemma_entry(after, i);
        lemma_entry(entries, i);
        if i != at {
            K::less_irreflexive(k);
            if k == key@ {
                if i < at {
                    assert(K::less(key_models(entries)[i], key_models(entries)[at]));
                } else {
                    assert(K::less(key_models(entries)[at], key_models(entries)[i]));
                }
            }
        }
    }
    assert(m =~= n);
}

proof fn lemma_removed<K: OrderedKey, V: View>(entries: Seq<(K, V)>, at: int)
    requires
        entries_sorted(entries),
        0 <= at < entries.len(),
    ensures
        entries_sorted(entries.remove(at)),
        entries_map(entries.remove(at)) == entries_map(entries).remove(entries[at].0@),
{
    let after = entries.remove(at);
    let keys = key_models(entries);
    let less = key_models(after);
    assert forall|i: int, j: int| 0 <= i < j < less.len() implies K::less(
        #[trigger] less[i],
        #[trigger] less[j],
    ) by {
        assert(K::less(keys[if i < at { i } else { i + 1 }], keys[if j < at { j } else { j + 1 }]));
    }
    let key = entries[at].0@;
    let m = entries_map(entries).remove(key);
    let n = entries_map(after);
    assert forall|k: K::V| m.contains_key(k) <==> n.contains_key(k) by {
        if less.contains(k) {
            let i = choose|i: int| 0 <= i < less.len() && less[i] == k;
            let j = if i < at { i } else { i + 1 };
            assert(keys[j] == k);
            K::less_irreflexive(k);
            if j < at {
                assert(K::less(keys[j], keys[at]));
            } else {
                assert(K::less(keys[at], keys[j]));
            }
        }
        if keys.contains(k) && k != key {
            let i = choose|i: int| 0 <= i < keys.len() && keys[i] == k;
            assert(less[if i < at { i } else { i - 1 }] == k);
        }
    }
    assert forall|k: K::V| m.contains_key(k) implies m[k] == n[k] by {
        assert(less.contains(k));
        let i = choose|i: int| 0 <= i < less.len() && less[i] == k;
        lemma_entry(after, i);
        lemma_entry(entries, if i < at { i } else { i + 1 });
    }
    assert(m =~= n);
}

impl<K: OrderedKey, V: View> View for OrderedMap<K, V> {
    type V = Map<K::V, V::V>;

    closed spec fn view(&self) -> Map<K::V, V::V> {
        entries_map(self.entries@)
    }
}

impl<K: OrderedKey, V: View> OrderedMap<K, V> {
    #[verifier::type_invariant]
    spec fn sorted(self) -> bool {
        entries_sorted(self.entries@)
    }

    /// The keys in ascending order.
    pub open spec fn keys(self) -> Seq<K::V> {
        sorted_keys::<K>(self@.dom())
    }

    /// A map without keys.
    pub fn new() -> (r: Self)
        ensures
            r@ == Map::<K::V, V::V>::empty(),
            r.keys().len() == 0,
    {
        let entries: Vec<(K, V)> = Vec::new();
        proof {
            lemma_map_listed(entries@);
            assert(entries_map(entries@) =~= Map::<K::V, V::V>::empty());
        }
        OrderedMap { entries }
    }

    /// The number of keys.
    pub fn len(&self) -> (r: usize)
        ensures
            r == self.keys().len(),
            r == self@.dom().len(),
            self@.dom().finite(),
            lists_sorted::<K>(self.keys(), self@.dom()),
    {
        proof {
            use_type_invariant(self);
            lemma_map_listed(self.entries@);
        }
        self.entries.len()
    }

    /// Whether the map has no key.
    pub fn is_empty(&self) -> (r: bool)
        ensures
            r == (self.keys().len() == 0),
            r == (self@ == Map::<K::V, V::V>::empty()),
    {
        proof {
            use_type_invariant(self);
            lemma_map_listed(self.entries@);
            if self.entries.len() == 0 {
                assert(self@ =~= Map::<K::V, V::V>::empty());
            } else {
                lemma_entry(self.entries@, 0);
            }
        }
        self.entries.len() == 0
    }

    /// The key at a position of the ascending order.
    pub fn key_at(&self, i: usize) -> (r: &K)
        requires
            i < self.keys().len(),
        ensures
            r@ == self.keys()[i as int],
            self@.contains_key(r@),
    {
        proof {
            use_type_invariant(self);
            lemma_map_listed(self.entries@);
            lemma_entry(self.entries@, i as int);
        }
        &self.entries[i].0
    }

    /// The value of the key at a position of the ascending order.
    pub fn value_at(&self, i: usize) -> (r: &V)
        requires
            i < self.keys().len(),
        ensures
            self@.contains_key(self.keys()[i as int]),
            r@ == self@[self.keys()[i as int]],
    {
        proof {
            use_type_invariant(self);
            lemma_map_listed(self.entries@);
            lemma_entry(self.entries@, i as int);
        }
        &self.entries[i].1
    }

    /// How many keys come before the given one.
    fn position(&self, key: &K) -> (r: usize)
        requires
            self.sorted(),
        ensures
            r <= self.entries.len(),
            forall|i: int| 0 <= i < r ==> K::less(#[trigger] self.entries@[i].0@, key@),
            r < self.entries.len() ==> !K::less(self.entries@[r as int].0@, key@),
    {
        let mut low: usize = 0;
        let mut high: usize = self.entries.len();
        while low < high
            invariant
                self.sorted(),
                low <= high <= self.entries.len(),
                forall|i: int| 0 <= i < low ==> K::less(#[trigger] self.entries@[i].0@, key@),
                high < self.entries.len() ==> !K::less(self.entries@[high as int].0@, key@),
            decreases high - low,
        {
            let mid: usize = low + (high - low) / 2;
            if self.entries[mid].0.before(key) {
                proof {
                    let keys = key_models(self.entries@);
                    assert forall|i: int| 0 <= i < mid + 1 implies K::less(
                        #[trigger] self.entries@[i].0@,
                        key@,
                    ) by {
                        if i < mid {
                            assert(K::less(keys[i], keys[mid as int]));
                            K::less_transitive(keys[i], keys[mid as int], key@);
                        }
                    }
                }
                low = mid + 1;
            } else {
                high = mid;
            }
        }
        low
    }

    /// Where the key stands, if the map has it.
    fn find(&self, key: &K) -> (r: Option<usize>)
        requires
            self.sorted(),
        ensures
            match r {
                Some(i) => i < self.entries.len() && self.entries@[i as int].0@ == key@
                    && self@.contains_key(key@),
                None => !self@.contains_key(key@),
            },
    {
        let at: usize = self.position(key);
        if at < self.entries.len() {
            if key.before(&self.entries[at].0) {
                proof {
                    lemma_absent(self.entries@, key@, at as int);
                }
                None
            } else {
                proof {
                    K::less_total(key@, self.entries@[at as int].0@);
                    lemma_entry(self.entries@, at as int);
                }
                Some(at)
            }
        } else {
            proof {
                lemma_absent(self.entries@, key@, at as int);
            }
            None
        }
    }

    /// The value of a key.
    pub fn get(&self, key: &K) -> (r: Option<&V>)
        ensures
            match r {
                Some(v) => self@.contains_key(key@) && v@ == self@[key@],
                None => !self@.contains_key(key@),
            },
    {
        proof {
            use_type_invariant(self);
        }
        match self.find(key) {
            Some(i) => {
                proof {
                    lemma_entry(self.entries@, i as int);
                }
                Some(&self.entries[i].1)
            },
            None => None,
        }
    }

    /// Whether the map has a key.
    pub fn contains_key(&self, key: &K) -> (r: bool)
        ensures
            r == self@.contains_key(key@),
    {
        self.get(key).is_some()
    }

    /// Sets the value of a key.
    pub fn insert(&mut self, key: K, value: V)
        ensures
            final(self)@ == old(self)@.insert(key@, value@),
    {
        proof {
            use_type_invariant(&*self);
        }
        let at: usize = self.position(&key);
        let mut entries: Vec<(K, V)> = Vec::new();
        std::mem::swap(&mut entries, &mut self.entries);
        if at < entries.len() && !key.before(&entries[at].0) {
            proof {
                K::less_total(key@, entries@[at as int].0@);
                lemma_replaced(entries@, at as int, key, value);
            }
            entries[at] = (key, value);
        } else {
            proof {
                if at < entries.len() {
                    K::less_total(key@, entries@[at as int].0@);
                }
                lemma_inserted(entries@, at as int, key, value);
            }
            entries.insert(at, (key, value));
        }
        self.entries = entries;
    }

    /// Takes a key and its value out.
    pub fn remove(&mut self, key: &K) -> (r: Option<V>)
        ensures
            final(self)@ == old(self)@.remove(key@),
            match r {
                Some(v) => old(self)@.contains_key(key@) && v@ == old(self)@[key@],
                None => !old(self)@.contains_key(key@) && final(self)@ == old(self)@,
            },
    {
        proof {
            use_type_invariant(&*self);
        }
        match self.find(key) {
            Some(at) => {
                let mut entries: Vec<(K, V)> = Vec::new();
                std::mem::swap(&mut entries, &mut self.entries);
                proof {
                    lemma_entry(entries@, at as int);
                    lemma_removed(entries@, at as int);
                }
                let taken: (K, V) = entries.remove(at);
                self.entries = entries;
                Some(taken.1)
            },
            None => {
                proof {
                    assert(self@.remove(key@) =~= self@);
                }
                None
            },
        }
    }
}

impl<V: View> OrderedMap<String, V> {
    /// The value of a key given as a string slice.
    pub fn get_text(&self, key: &str) -> (r: Option<&V>)
        ensures
            match r {
                Some(v) => self@.contains_key(key@) && v@ == self@[key@],
                None => !self@.contains_key(key@),
            },
    {
        let owned: String = key.to_owned();
        self.get(&owned)
    }
}

impl<K: OrderedKey + Replicate, V: Replicate> Replicate for OrderedMap<K, V> {
    fn replicate(&self) -> (r: Self) {
        let mut out: OrderedMap<K, V> = OrderedMap::new();
        let n: usize = self.len();
        let mut i: usize = 0;
        while i < n
            invariant
                n == self.keys().len(),
                i <= n,
                lists_sorted::<K>(self.keys(), self@.dom()),
                forall|k: K::V| #[trigger] out@.contains_key(k) <==> (exists|j: int|
                    0 <= j < i && self.keys()[j] == k),
                forall|k: K::V| #[trigger] out@.contains_key(k) ==> self@.contains_key(k) && out@[k]
                    == self@[k],
            decreases n - i,
        {
            let key: K = self.key_at(i).replicate();
            let value: V = self.value_at(i).replicate();
            let ghost before = out@;
            out.insert(key, value);
            proof {
                assert forall|k: K::V| #[trigger] out@.contains_key(k) <==> (exists|j: int|
                    0 <= j < i + 1 && self.keys()[j] == k) by {
                    if out@.contains_key(k) {
                        if k == self.keys()[i as int] {
                        } else {
                            assert(before.contains_key(k));
                        }
                    }
                    if exists|j: int| 0 <= j < i + 1 && self.keys()[j] == k {
                        let j = choose|j: int| 0 <= j < i + 1 && self.keys()[j] == k;
                        if j < i {
                            assert(before.contains_key(k));
                        }
                    }
                }
            }
            i = i + 1;
        }
        proof {
            assert forall|k: K::V| self@.contains_key(k) implies #[trigger] out@.contains_key(k) by {
                assert(self.keys().contains(k));
            }
            assert(out@ =~= self@);
        }
        out
    }
}

// ---------------------------------------------------------------------------------------------
// The set
// ---------------------------------------------------------------------------------------------

/// A set whose members come out in ascending order.
#[derive(Debug, PartialEq, Eq)]
pub struct OrderedSet<K: OrderedKey> {
    members: OrderedMap<K, bool>,
}

impl<K: OrderedKey> View for OrderedSet<K> {
    type V = Set<K::V>;

    closed spec fn view(&self) -> Set<K::V> {
        self.members@.dom()
    }
}

impl<K: OrderedKey> OrderedSet<K> {
    /// The members in ascending order.
    pub open spec fn list(self) -> Seq<K::V> {
        sorted_keys::<K>(self@)
    }

    /// A set without members.
    pub fn new() -> (r: Self)
        ensures
            r@ == Set::<K::V>::empty(),
            r.list().len() == 0,
    {
        let members: OrderedMap<K, bool> = OrderedMap::new();
        proof {
            assert(members@.dom() =~= Set::<K::V>::empty());
        }
        OrderedSet { members }
    }

    /// The number of members.
    pub fn len(&self) -> (r: usize)
        ensures
            r == self.list().len(),
            r == self@.len(),
            self@.finite(),
            lists_sorted::<K>(self.list(), self@),
    {
        self.members.len()
    }

    /// The member at a position of the ascending order.
    pub fn at(&self, i: usize) -> (r: &K)
        requires
            i < self.list().len(),
        ensures
            r@ == self.list()[i as int],
            self@.contains(r@),
    {
        self.members.key_at(i)
    }

    /// Whether the set has a member.
    pub fn contains(&self, key: &K) -> (r: bool)
        ensures
            r == self@.contains(key@),
    {
        self.members.contains_key(key)
    }

    /// Adds a member, and says whether it is new.
    pub fn insert(&mut self, key: K) -> (r: bool)
        ensures
            final(self)@ == old(self)@.insert(key@),
            r == !old(self)@.contains(key@),
    {
        let fresh: bool = !self.members.contains_key(&key);
        self.members.insert(key, true);
        proof {
            assert(self@ =~= old(self)@.insert(key@));
        }
        fresh
    }

    /// Takes a member out, and says whether it was there.
    pub fn remove(&mut self, key: &K) -> (r: bool)
        ensures
            final(self)@ == old(self)@.remove(key@),
            r == old(self)@.contains(key@),
    {
        let taken: Option<bool> = self.members.remove(key);
        proof {
            assert(self@ =~= old(self)@.remove(key@));
        }
        taken.is_some()
    }
}

impl Replicate for bool {
    fn replicate(&self) -> (r: Self) {
        *self
    }
}

impl<K: OrderedKey + Replicate> Replicate for OrderedSet<K> {
    fn replicate(&self) -> (r: Self) {
        OrderedSet { members: self.members.replicate() }
    }
}

impl<K: OrderedKey + Replicate> OrderedSet<K> {
    /// The members in ascending order.
    pub fn to_list(&self) -> (r: Vec<K>)
        ensures
            models(r@) == self.list(),
            lists_sorted::<K>(self.list(), self@),
    {
        let n: usize = self.len();
        let mut out: Vec<K> = Vec::new();
        let mut i: usize = 0;
        while i < n
            invariant
                n == self.list().len(),
                i <= n,
                out.len() == i,
                forall|k: int| 0 <= k < i ==> #[trigger] out@[k]@ == self.list()[k],
            decreases n - i,
        {
            out.push(self.at(i).replicate());
            i = i + 1;
        }
        proof {
            assert(models(out@) =~= self.list());
        }
        out
    }
}

// ---------------------------------------------------------------------------------------------
// Lists of keys
// ---------------------------------------------------------------------------------------------

/// The models of the items of a list.
pub open spec fn models<T: View>(items: Seq<T>) -> Seq<T::V> {
    Seq::new(items.len(), |i: int| items[i]@)
}

/// A list of items, modelled by the models of the items.
#[derive(Debug, PartialEq, Eq)]
pub struct ItemList<T: View> {
    pub items: Vec<T>,
}

impl<T: View> View for ItemList<T> {
    type V = Seq<T::V>;

    open spec fn view(&self) -> Seq<T::V> {
        models(self.items@)
    }
}

/// A list without the given item.
pub open spec fn without<A>(list: Seq<A>, item: A) -> Seq<A> {
    list.filter(|x: A| x != item)
}

/// A list with the given item at its end, unless the item is in it already.
pub open spec fn with_unique<A>(list: Seq<A>, item: A) -> Seq<A> {
    if list.contains(item) {
        list
    } else {
        list.push(item)
    }
}

pub proof fn lemma_filter_step<A>(list: Seq<A>, p: spec_fn(A) -> bool, i: int)
    requires
        0 <= i < list.len(),
    ensures
        list.take(i + 1).filter(p) == if p(list[i]) {
            list.take(i).filter(p).push(list[i])
        } else {
            list.take(i).filter(p)
        },
{
    reveal(Seq::filter);
    let t = list.take(i + 1);
    assert(t.drop_last() =~= list.take(i));
    assert(t.last() == list[i]);
}

/// A copy of a list of items, with the models kept.
pub fn replicate_items<T: Replicate>(items: &Vec<T>) -> (r: Vec<T>)
    ensures
        models(r@) == models(items@),
{
    let mut out: Vec<T> = Vec::new();
    let mut i: usize = 0;
    while i < items.len()
        invariant
            i <= items.len(),
            out.len() == i,
            forall|k: int| 0 <= k < i ==> #[trigger] out@[k]@ == items@[k]@,
        decreases items.len() - i,
    {
        out.push(items[i].replicate());
        i = i + 1;
    }
    proof {
        assert(models(out@) =~= models(items@));
    }
    out
}

impl<T: Replicate> Replicate for ItemList<T> {
    fn replicate(&self) -> (r: Self) {
        ItemList { items: replicate_items(&self.items) }
    }
}

/// Whether two keys have the same model.
pub fn same_key<K: OrderedKey>(a: &K, b: &K) -> (r: bool)
    ensures
        r == (a@ == b@),
{
    proof {
        K::less_total(a@, b@);
        K::less_irreflexive(a@);
    }
    !a.before(b) && !b.before(a)
}

impl<T: OrderedKey> ItemList<T> {
    /// A list without items.
    pub fn new() -> (r: Self)
        ensures
            r@ == Seq::<T::V>::empty(),
    {
        let items: Vec<T> = Vec::new();
        proof {
            assert(models(items@) =~= Seq::<T::V>::empty());
        }
        ItemList { items }
    }

    /// Whether the list has an item.
    pub fn contains(&self, item: &T) -> (r: bool)
        ensures
            r == self@.contains(item@),
    {
        let mut i: usize = 0;
        while i < self.items.len()
            invariant
                i <= self.items.len(),
                forall|k: int| 0 <= k < i ==> self@[k] != item@,
            decreases self.items.len() - i,
        {
            if same_key(&self.items[i], item) {
                proof {
                    assert(self@[i as int] == item@);
                }
                return true;
            }
            i = i + 1;
        }
        false
    }

    /// Puts an item at the end, unless the list has it already.
    pub fn push_unique(&mut self, item: T)
        ensures
            final(self)@ == with_unique(old(self)@, item@),
    {
        if !self.contains(&item) {
            self.items.push(item);
            proof {
                assert(self@ =~= old(self)@.push(item@));
            }
        }
    }

    /// Takes every occurrence of an item out.
    pub fn remove_all(&mut self, item: &T)
        ensures
            final(self)@ == without(old(self)@, item@),
    {
        let mut i: usize = 0;
        let ghost start = self@;
        let ghost p = |x: T::V| x != item@;
        let ghost mut seen: int = 0;
        proof {
            reveal(Seq::filter);
            assert(start.take(0).filter(p) =~= Seq::<T::V>::empty());
            assert(start.take(0) =~= Seq::<T::V>::empty());
            assert(self@ =~= start.take(0).filter(p) + start.skip(0));
        }
        while i < self.items.len()
            invariant
                0 <= seen <= start.len(),
                i == start.take(seen).filter(p).len(),
                self@ == start.take(seen).filter(p) + start.skip(seen),
                p == (|x: T::V| x != item@),
            decreases start.len() - seen,
        {
            proof {
                lemma_filter_step(start, p, seen);
                assert(start.skip(seen)[0] == start[seen]);
                assert(self@[i as int] == start[seen]);
                assert(start.skip(seen + 1) =~= start.skip(seen).drop_first());
            }
            if same_key(&self.items[i], item) {
                let ghost held = self@;
                let _dropped: T = self.items.remove(i);
                proof {
                    assert(self@ =~= held.remove(i as int));
                    assert(self@ =~= start.take(seen + 1).filter(p) + start.skip(seen + 1));
                    seen = seen + 1;
                }
            } else {
                proof {
                    assert(self@ =~= start.take(seen + 1).filter(p) + start.skip(seen + 1));
                    seen = seen + 1;
                }
                i = i + 1;
            }
        }
        proof {
            assert(start.skip(seen).len() == 0);
            assert(start.take(seen) =~= start);
            assert(self@ =~= start.filter(p));
            assert(p =~= (|x: T::V| x != item@));
        }
    }
}

} // verus!
