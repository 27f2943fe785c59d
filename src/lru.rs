//! A bounded store of cache entries with least-recently-used eviction and
//! scans of one `(name, kind, class)` prefix in sub-key order.
//!
//! Entries live in slots of a vector; a slot's index is its id. The recency
//! order of the ids is kept by a `LinkedHashSet`, least recently used first.

use linked_hash_set::LinkedHashSet;
use vstd::prelude::*;

use crate::cache::{lemma_sub_lt_order, sub_less, sub_lt, Key, KeyV, SubKey, SubKeyV, Value, ValueV};
use crate::dns::{Name, RRClass, RRKind};

verus! {

/// `linked_hash_set::LinkedHashSet`, held opaque: its contents are `recency_of`.
#[verifier::external_type_specification]
#[verifier::external_body]
#[verifier::reject_recursive_types(T)]
#[verifier::reject_recursive_types(S)]
pub struct ExLinkedHashSet<T, S>(LinkedHashSet<T, S>);

/// The ids held by a recency set, in its order (front first).
pub uninterp spec fn recency_of(s: LinkedHashSet<usize>) -> Seq<usize>;

/// Relies on `LinkedHashSet::new`: the new set is empty.
#[verifier::external_body]
fn recency_new() -> (r: LinkedHashSet<usize>)
    ensures
        recency_of(r) == Seq::<usize>::empty(),
{
    LinkedHashSet::new()
}

/// Relies on `LinkedHashSet::insert`: the value ends up at the back of the
/// order, moved there if it was present.
#[verifier::external_body]
fn recency_insert(s: &mut LinkedHashSet<usize>, id: usize) -> (r: bool)
    ensures
        r == !recency_of(*old(s)).contains(id),
        r ==> recency_of(*final(s)) == recency_of(*old(s)).push(id),
        !r ==> recency_of(*final(s)) == recency_of(*old(s)).remove_value(id).push(id),
{
    s.insert(id)
}

/// Relies on `LinkedHashSet::refresh`: a present value moves to the back.
#[verifier::external_body]
fn recency_refresh(s: &mut LinkedHashSet<usize>, id: usize) -> (r: bool)
    ensures
        r == recency_of(*old(s)).contains(id),
        r ==> recency_of(*final(s)) == recency_of(*old(s)).remove_value(id).push(id),
        !r ==> recency_of(*final(s)) == recency_of(*old(s)),
{
    s.refresh(&id)
}

/// Relies on `LinkedHashSet::pop_front`: removes and returns the front value.
#[verifier::external_body]
fn recency_pop_front(s: &mut LinkedHashSet<usize>) -> (r: Option<usize>)
    ensures
        recency_of(*old(s)).len() == 0 ==> r is None && recency_of(*final(s)) == recency_of(
            *old(s),
        ),
        recency_of(*old(s)).len() > 0 ==> r == Some(recency_of(*old(s))[0]) && recency_of(
            *final(s),
        ) == recency_of(*old(s)).drop_first(),
{
    s.pop_front()
}

/// Relies on `LinkedHashSet::remove`: removes a value, keeping the order of the others.
#[verifier::external_body]
fn recency_remove(s: &mut LinkedHashSet<usize>, id: usize) -> (r: bool)
    ensures
        r == recency_of(*old(s)).contains(id),
        recency_of(*final(s)) == recency_of(*old(s)).remove_value(id),
{
    s.remove(&id)
}

pub type Entry = (KeyV, ValueV);

pub open spec fn keys_unique(s: Seq<Entry>) -> bool {
    forall|i: int, j: int| 0 <= i < s.len() && 0 <= j < s.len() && i != j ==> s[i].0 != s[j].0
}

pub open spec fn has_key(s: Seq<Entry>, k: KeyV) -> bool {
    exists|i: int| 0 <= i < s.len() && s[i].0 == k
}

pub open spec fn key_index(s: Seq<Entry>, k: KeyV) -> int {
    choose|i: int| 0 <= i < s.len() && s[i].0 == k
}

pub open spec fn key_ne(k: KeyV) -> spec_fn(Entry) -> bool {
    |e: Entry| e.0 != k
}

/// `s` without the entry of key `k`.
pub open spec fn remove_key(s: Seq<Entry>, k: KeyV) -> Seq<Entry> {
    s.filter(key_ne(k))
}

/// The entries left after making room for one more, when full.
pub open spec fn evict(s: Seq<Entry>, cap: nat) -> Seq<Entry> {
    if s.len() >= cap {
        s.drop_first()
    } else {
        s
    }
}

/// The store after `insert(k, v)`: evict when full, then `k` becomes the most recent.
pub open spec fn lru_insert(s: Seq<Entry>, cap: nat, k: KeyV, v: ValueV) -> Seq<Entry> {
    remove_key(evict(s, cap), k).push((k, v))
}

/// `k` made the most recently used.
pub open spec fn touch(s: Seq<Entry>, k: KeyV) -> Seq<Entry> {
    if has_key(s, k) {
        let p = key_index(s, k);
        s.remove(p).push(s[p])
    } else {
        s
    }
}

/// Each key of `ks` made the most recent in turn.
pub open spec fn touch_all(s: Seq<Entry>, ks: Seq<KeyV>) -> Seq<Entry>
    decreases ks.len(),
{
    if ks.len() == 0 {
        s
    } else {
        touch(touch_all(s, ks.drop_last()), ks.last())
    }
}

pub open spec fn prefix_match(k: KeyV, name: Seq<u8>, kind: RRKind, class: RRClass) -> bool {
    k.name == name && k.rr_kind == kind && k.rr_class == class
}

/// The store without the entries of one prefix.
pub open spec fn remove_prefix(s: Seq<Entry>, name: Seq<u8>, kind: RRKind, class: RRClass) -> Seq<
    Entry,
> {
    s.filter(|e: Entry| !prefix_match(e.0, name, kind, class))
}

pub open spec fn sub_sorted(r: Seq<(SubKeyV, ValueV)>) -> bool {
    forall|i: int, j: int| 0 <= i < j < r.len() ==> sub_lt(r[i].0, r[j].0)
}

/// The `(sub-key, value)` pairs stored under one prefix.
pub open spec fn prefix_members(s: Seq<Entry>, name: Seq<u8>, kind: RRKind, class: RRClass) -> Set<
    (SubKeyV, ValueV),
> {
    Set::new(
        |e: (SubKeyV, ValueV)|
            exists|p: int|
                0 <= p < s.len() && prefix_match(s[p].0, name, kind, class) && e == (
                    s[p].0.sub,
                    s[p].1,
                ),
    )
}

pub open spec fn is_prefix_scan(
    r: Seq<(SubKeyV, ValueV)>,
    s: Seq<Entry>,
    name: Seq<u8>,
    kind: RRKind,
    class: RRClass,
) -> bool {
    sub_sorted(r) && r.to_set() == prefix_members(s, name, kind, class)
}

/// The members of `m` in ascending sub-key order.
pub open spec fn sorted_scan(m: Set<(SubKeyV, ValueV)>) -> Seq<(SubKeyV, ValueV)> {
    choose|r: Seq<(SubKeyV, ValueV)>| sub_sorted(r) && r.to_set() == m
}

/// The entries of one prefix in ascending sub-key order.
pub open spec fn prefix_scan(s: Seq<Entry>, name: Seq<u8>, kind: RRKind, class: RRClass) -> Seq<
    (SubKeyV, ValueV),
> {
    sorted_scan(prefix_members(s, name, kind, class))
}

/// The full keys of a scan's results.
pub open spec fn scan_keys(r: Seq<(SubKeyV, ValueV)>, name: Seq<u8>, kind: RRKind, class: RRClass) -> Seq<
    KeyV,
> {
    r.map_values(|e: (SubKeyV, ValueV)| KeyV { name, rr_kind: kind, rr_class: class, sub: e.0 })
}

// ---------------------------------------------------------------------------
// Lemmas on sequences.

pub proof fn lemma_filter_all<A>(s: Seq<A>, p: spec_fn(A) -> bool)
    requires
        forall|i: int| 0 <= i < s.len() ==> p(s[i]),
    ensures
        s.filter(p) == s,
    decreases s.len(),
{
    reveal(Seq::filter);
    if s.len() > 0 {
        lemma_filter_all(s.drop_last(), p);
        assert(s.drop_last().push(s.last()) =~= s);
    }
}

pub proof fn lemma_filter_single<A>(s: Seq<A>, p: spec_fn(A) -> bool, k: int)
    requires
        0 <= k < s.len(),
        !p(s[k]),
        forall|i: int| 0 <= i < s.len() && i != k ==> p(s[i]),
    ensures
        s.filter(p) == s.remove(k),
    decreases s.len(),
{
    reveal(Seq::filter);
    if k == s.len() - 1 {
        lemma_filter_all(s.drop_last(), p);
        assert(s.remove(k) =~= s.drop_last());
    } else {
        lemma_filter_single(s.drop_last(), p, k);
        assert(s.drop_last().remove(k).push(s.last()) =~= s.remove(k));
    }
}

pub proof fn lemma_filter_congruent<A>(s: Seq<A>, p: spec_fn(A) -> bool, q: spec_fn(A) -> bool)
    requires
        forall|i: int| 0 <= i < s.len() ==> p(s[i]) == q(s[i]),
    ensures
        s.filter(p) == s.filter(q),
    decreases s.len(),
{
    reveal(Seq::filter);
    if s.len() > 0 {
        lemma_filter_congruent(s.drop_last(), p, q);
    }
}

pub proof fn lemma_filter_twice<A>(s: Seq<A>, p: spec_fn(A) -> bool, q: spec_fn(A) -> bool)
    ensures
        s.filter(p).filter(q) == s.filter(|a: A| p(a) && q(a)),
    decreases s.len(),
{
    reveal(Seq::filter);
    if s.len() > 0 {
        lemma_filter_twice(s.drop_last(), p, q);
        let t = s.drop_last().filter(p);
        if p(s.last()) {
            t.lemma_filter_push(s.last(), q);
        }
    }
}

/// Two strictly sorted scans with the same members are the same.
pub proof fn lemma_sorted_unique(a: Seq<(SubKeyV, ValueV)>, b: Seq<(SubKeyV, ValueV)>)
    requires
        sub_sorted(a),
        sub_sorted(b),
        a.to_set() == b.to_set(),
    ensures
        a == b,
    decreases a.len(),
{
    if a.len() == 0 {
        if b.len() > 0 {
            assert(b.to_set().contains(b[0]));
        }
        assert(a =~= b);
    } else {
        assert(a.to_set().contains(a[0]));
        assert(b.len() > 0);
        assert(b.to_set().contains(b[0]));
        let i = choose|i: int| 0 <= i < a.len() && a[i] == b[0];
        let j = choose|j: int| 0 <= j < b.len() && b[j] == a[0];
        if i > 0 && j > 0 {
            lemma_sub_lt_order(a[0].0, b[0].0, a[0].0);
        }
        if i == 0 {
            assert(a[0] == b[0]);
        } else {
            assert(j == 0 || a[0] == b[0]) by {
                lemma_sub_lt_order(a[0].0, a[i].0, a[0].0);
            }
        }
        assert(a[0] == b[0]);
        let a1 = a.drop_first();
        let b1 = b.drop_first();
        assert(sub_sorted(a1));
        assert(sub_sorted(b1));
        assert forall|e| a1.to_set().contains(e) implies b1.to_set().contains(e) by {
            let x = choose|x: int| 0 <= x < a1.len() && a1[x] == e;
            assert(a.to_set().contains(a[x + 1]));
            let y = choose|y: int| 0 <= y < b.len() && b[y] == e;
            lemma_sub_lt_order(a[0].0, a[x + 1].0, a[0].0);
            assert(y != 0);
            assert(b1[y - 1] == e);
        }
        assert forall|e| b1.to_set().contains(e) implies a1.to_set().contains(e) by {
            let x = choose|x: int| 0 <= x < b1.len() && b1[x] == e;
            assert(b.to_set().contains(b[x + 1]));
            let y = choose|y: int| 0 <= y < a.len() && a[y] == e;
            lemma_sub_lt_order(b[0].0, b[x + 1].0, b[0].0);
            assert(y != 0);
            assert(a1[y - 1] == e);
        }
        assert(a1.to_set() =~= b1.to_set());
        lemma_sorted_unique(a1, b1);
        assert(a =~= seq![a[0]] + a1);
        assert(b =~= seq![b[0]] + b1);
    }
}

/// A sorted sequence with the members of a prefix is its scan.
pub proof fn lemma_prefix_scan_is(
    r: Seq<(SubKeyV, ValueV)>,
    s: Seq<Entry>,
    name: Seq<u8>,
    kind: RRKind,
    class: RRClass,
)
    requires
        is_prefix_scan(r, s, name, kind, class),
    ensures
        prefix_scan(s, name, kind, class) == r,
{
    let c = prefix_scan(s, name, kind, class);
    assert(is_prefix_scan(c, s, name, kind, class));
    lemma_sorted_unique(c, r);
}


pub proof fn lemma_remove_key_at(s: Seq<Entry>, k: KeyV, q: int)
    requires
        keys_unique(s),
        0 <= q < s.len(),
        s[q].0 == k,
    ensures
        remove_key(s, k) == s.remove(q),
        key_index(s, k) == q,
{
    lemma_filter_single(s, key_ne(k), q);
}

pub proof fn lemma_remove_key_absent(s: Seq<Entry>, k: KeyV)
    requires
        !has_key(s, k),
    ensures
        remove_key(s, k) == s,
{
    lemma_filter_all(s, key_ne(k));
}

pub proof fn lemma_remove_value_at(s: Seq<usize>, q: int)
    requires
        s.no_duplicates(),
        0 <= q < s.len(),
    ensures
        s.remove_value(s[q]) == s.remove(q),
{
    s.index_of_first_ensures(s[q]);
}

/// Relies on `LinkedHashSet::len`: the number of values held.
#[verifier::external_body]
fn recency_len(s: &LinkedHashSet<usize>) -> (r: usize)
    ensures
        r == recency_of(*s).len(),
{
    s.len()
}

/// A bounded map from cache keys to values, evicting the least recently used entry.
pub struct LruCache {
    slots: Vec<Option<(Key, Value)>>,
    order: LinkedHashSet<usize>,
    max_len: usize,
}

impl View for LruCache {
    type V = Seq<Entry>;

    /// The entries, least recently used first.
    closed spec fn view(&self) -> Seq<Entry> {
        self.ids().map_values(|id: usize| self.entry(id))
    }
}

impl LruCache {
    spec fn ids(&self) -> Seq<usize> {
        recency_of(self.order)
    }

    spec fn live(&self, id: int) -> bool {
        0 <= id < self.slots@.len() && self.slots@[id] is Some
    }

    spec fn entry(&self, id: usize) -> Entry {
        let e = self.slots@[id as int]->Some_0;
        (e.0@, e.1@)
    }

    pub closed spec fn capacity(&self) -> nat {
        self.max_len as nat
    }

    pub closed spec fn wf(&self) -> bool {
        &&& self.max_len > 0
        &&& self.ids().no_duplicates()
        &&& forall|j: int| 0 <= j < self.ids().len() ==> #[trigger] self.live(self.ids()[j] as int)
        &&& forall|i: int| #[trigger] self.live(i) ==> self.ids().contains(i as usize)
        &&& keys_unique(self@)
        &&& self.ids().len() <= self.max_len
    }

    pub proof fn lemma_wf(&self)
        requires
            self.wf(),
        ensures
            keys_unique(self@),
            self@.len() <= self.capacity(),
            self.capacity() > 0,
    {
    }

    /// An empty store that holds at most `max_len` entries.
    pub fn new(max_len: usize) -> (r: LruCache)
        requires
            max_len > 0,
        ensures
            r.wf(),
            r@ == Seq::<Entry>::empty(),
            r.capacity() == max_len,
    {
        let r = LruCache { slots: Vec::new(), order: recency_new(), max_len };
        assert(r@ =~= Seq::<Entry>::empty());
        r
    }

    /// The number of entries.
    pub fn len(&self) -> (r: usize)
        requires
            self.wf(),
        ensures
            r == self@.len(),
    {
        recency_len(&self.order)
    }

    /// The greatest number of entries.
    pub fn capacity_limit(&self) -> (r: usize)
        ensures
            r == self.capacity(),
    {
        self.max_len
    }

    /// The slot that holds `key`, if any.
    fn find(&self, key: &Key) -> (r: Option<usize>)
        requires
            self.wf(),
        ensures
            match r {
                Some(i) => self.live(i as int) && self.entry(i).0 == key@,
                None => !has_key(self@, key@),
            },
    {
        let mut i: usize = 0;
        while i < self.slots.len()
            invariant
                self.wf(),
                i <= self.slots@.len(),
                forall|j: int| 0 <= j < i && #[trigger] self.live(j) ==> self.entry(j as usize).0 != key@,
            decreases self.slots@.len() - i,
        {
            match &self.slots[i] {
                Some(e) => {
                    if e.0.same(key) {
                        return Some(i);
                    }
                },
                None => {},
            }
            i = i + 1;
        }
        assert forall|p: int| 0 <= p < self@.len() implies self@[p].0 != key@ by {
            assert(self.live(self.ids()[p] as int));
        }
        None
    }

    /// A slot that holds nothing, made at the end if there is none.
    fn free_slot(&mut self) -> (r: usize)
        requires
            old(self).wf(),
        ensures
            final(self).wf(),
            final(self)@ == old(self)@,
            final(self).order == old(self).order,
            final(self).max_len == old(self).max_len,
            r < final(self).slots@.len(),
            final(self).slots@[r as int] is None,
    {
        let mut i: usize = 0;
        while i < self.slots.len()
            invariant
                i <= self.slots@.len(),
                old(self).wf(),
                *self == *old(self),
            decreases self.slots@.len() - i,
        {
            if self.slots[i].is_none() {
                return i;
            }
            i = i + 1;
        }
        let ghost before = *self;
        self.slots.push(None);
        proof {
            assert forall|j: int| 0 <= j < self.ids().len() implies #[trigger] self.live(
                self.ids()[j] as int,
            ) by {
                assert(before.live(before.ids()[j] as int));
            }
            assert forall|k: int| #[trigger] self.live(k) implies self.ids().contains(k as usize) by {
                assert(before.live(k));
            }
            assert forall|j: int| 0 <= j < self.ids().len() implies self.entry(self.ids()[j])
                == before.entry(before.ids()[j]) by {
                assert(before.live(before.ids()[j] as int));
            }
            assert(self@ =~= before@);
        }
        i
    }

    /// Drops the least recently used entry.
    fn evict_one(&mut self)
        requires
            old(self).wf(),
            old(self)@.len() > 0,
        ensures
            final(self).wf(),
            final(self)@ == old(self)@.drop_first(),
            final(self).max_len == old(self).max_len,
    {
        let ghost before = *self;
        let popped = recency_pop_front(&mut self.order);
        match popped {
            Some(id) => {
                assert(before.live(id as int));
                self.slots.set(id, None);
                assert(self.slots@ == before.slots@.update(id as int, None));
                proof {
                    let ids = self.ids();
                    assert(ids =~= before.ids().drop_first());
                    assert forall|j: int| 0 <= j < ids.len() implies ids[j] != id by {
                        assert(before.ids()[j + 1] == ids[j]);
                    }
                    assert forall|j: int| 0 <= j < ids.len() implies #[trigger] self.live(
                        ids[j] as int,
                    ) by {
                        assert(before.live(before.ids()[j + 1] as int));
                    }
                    assert forall|k: int| #[trigger] self.live(k) implies ids.contains(k as usize) by {
                        assert(self.slots@[id as int] is None);
                        assert(k != id as int);
                        assert(before.ids()[0] == id);
                        assert(before.live(k));
                        let q = choose|q: int| 0 <= q < before.ids().len() && before.ids()[q] == k as usize;
                        assert(before.slots.len() == before.slots@.len());
                        assert(before.ids()[q] as int == k);
                        assert(q != 0);
                        assert(ids[q - 1] == k as usize);
                    }
                    assert forall|j: int| 0 <= j < ids.len() implies self.entry(ids[j])
                        == before.entry(ids[j]) by {
                        assert(ids[j] != id);
                        assert(before.live(before.ids()[j + 1] as int));
                    }
                    assert(self@ =~= before@.drop_first());
                }
            },
            None => {},
        }
    }

    /// Replaces the entry in slot `i`, which holds `key`, and makes it the most recent.
    fn overwrite(&mut self, i: usize, key: Key, value: Value)
        requires
            old(self).wf(),
            old(self).live(i as int),
            old(self).entry(i).0 == key@,
        ensures
            final(self).wf(),
            final(self).max_len == old(self).max_len,
            final(self)@ == remove_key(old(self)@, key@).push((key@, value@)),
            has_key(old(self)@, key@),
    {
        let ghost before = *self;
        let ghost s1 = self@;
        let ghost kv = key@;
        let ghost vv = value@;
        self.slots.set(i, Some((key, value)));
        recency_refresh(&mut self.order, i);
        proof {
            let q = choose|q: int| 0 <= q < before.ids().len() && before.ids()[q] == i;
            assert(before.ids().contains(i));
            lemma_remove_value_at(before.ids(), q);
            let ids = self.ids();
            assert(ids =~= before.ids().remove(q).push(i));
            assert(s1[q].0 == kv);
            lemma_remove_key_at(s1, kv, q);
            assert forall|j: int| 0 <= j < ids.len() implies #[trigger] self.live(ids[j] as int) by {
                if j < q {
                    assert(before.live(before.ids()[j] as int));
                } else if j < ids.len() - 1 {
                    assert(before.live(before.ids()[j + 1] as int));
                }
            }
            assert forall|k: int| #[trigger] self.live(k) implies ids.contains(k as usize) by {
                assert(before.live(k));
                let p = choose|p: int| 0 <= p < before.ids().len() && before.ids()[p] == k as usize;
                if p < q {
                    assert(ids[p] == k as usize);
                } else if p > q {
                    assert(ids[p - 1] == k as usize);
                } else {
                    assert(ids[ids.len() - 1] == k as usize);
                }
            }
            assert forall|j: int| 0 <= j < ids.len() - 1 implies self.entry(ids[j]) == s1.remove(
                q,
            )[j] by {
                if j < q {
                    assert(before.ids()[j] != i);
                    assert(before.live(before.ids()[j] as int));
                } else {
                    assert(before.ids()[j + 1] != i);
                    assert(before.live(before.ids()[j + 1] as int));
                }
            }
            assert(self@ =~= s1.remove(q).push((kv, vv)));
            assert(ids.no_duplicates());
        }
    }

    /// Adds an entry for a key that is not stored, as the most recent.
    fn add_new(&mut self, key: Key, value: Value)
        requires
            old(self).wf(),
            !has_key(old(self)@, key@),
            old(self)@.len() < old(self).max_len,
        ensures
            final(self).wf(),
            final(self).max_len == old(self).max_len,
            final(self)@ == old(self)@.push((key@, value@)),
    {
        let ghost s1 = self@;
        let ghost kv = key@;
        let ghost vv = value@;
        let h = self.free_slot();
        let ghost mid = *self;
        self.slots.set(h, Some((key, value)));
        recency_insert(&mut self.order, h);
        proof {
            assert(!mid.live(h as int));
            assert(!mid.ids().contains(h)) by {
                if mid.ids().contains(h) {
                    let p = choose|p: int| 0 <= p < mid.ids().len() && mid.ids()[p] == h;
                    assert(mid.live(mid.ids()[p] as int));
                }
            }
            let ids = self.ids();
            assert(ids =~= mid.ids().push(h));
            assert forall|j: int| 0 <= j < ids.len() implies #[trigger] self.live(ids[j] as int) by {
                if j < ids.len() - 1 {
                    assert(mid.live(mid.ids()[j] as int));
                }
            }
            assert forall|k: int| #[trigger] self.live(k) implies ids.contains(k as usize) by {
                if k != h {
                    assert(mid.live(k));
                    let p = choose|p: int| 0 <= p < mid.ids().len() && mid.ids()[p] == k as usize;
                    assert(ids[p] == k as usize);
                } else {
                    assert(ids[ids.len() - 1] == h);
                }
            }
            assert forall|j: int| 0 <= j < ids.len() - 1 implies self.entry(ids[j]) == s1[j] by {
                assert(mid.live(mid.ids()[j] as int));
            }
            assert(self@ =~= s1.push((kv, vv)));
            assert(ids.no_duplicates());
            assert forall|a: int, b: int|
                0 <= a < self@.len() && 0 <= b < self@.len() && a != b implies self@[a].0
                != self@[b].0 by {
                if a == self@.len() - 1 {
                    assert(s1[b].0 != kv);
                } else if b == self@.len() - 1 {
                    assert(s1[a].0 != kv);
                }
            }
        }
    }

    /// Stores `value` under `key`. When the store is full, the least recently
    /// used entry is dropped first. The key becomes the most recently used.
    /// Returns the value the key held, if it held one after that eviction.
    pub fn insert(&mut self, key: Key, value: Value) -> (r: Option<Value>)
        requires
            old(self).wf(),
        ensures
            final(self).wf(),
            final(self).capacity() == old(self).capacity(),
            final(self)@ == lru_insert(old(self)@, old(self).capacity(), key@, value@),
            r is Some == has_key(evict(old(self)@, old(self).capacity()), key@),
            r is Some ==> r.unwrap()@ == evict(old(self)@, old(self).capacity())[key_index(
                evict(old(self)@, old(self).capacity()),
                key@,
            )].1,
    {
        let ghost s0 = self@;
        let ghost kv = key@;
        if recency_len(&self.order) >= self.max_len {
            self.evict_one();
        }
        let ghost s1 = self@;
        assert(s1 == evict(s0, self.max_len as nat));
        match self.find(&key) {
            Some(i) => {
                let prior = match &self.slots[i] {
                    Some(e) => e.1.copy(),
                    None => unreached(),
                };
                proof {
                    let q = choose|q: int| 0 <= q < self.ids().len() && self.ids()[q] == i;
                    assert(self.ids().contains(i));
                    assert(s1[q].0 == kv);
                    lemma_remove_key_at(s1, kv, q);
                }
                self.overwrite(i, key, value);
                Some(prior)
            },
            None => {
                proof {
                    lemma_remove_key_absent(s1, kv);
                }
                self.add_new(key, value);
                None
            },
        }
    }

    proof fn lemma_live_in_view(&self, id: int) -> (q: int)
        requires
            self.wf(),
            self.live(id),
        ensures
            0 <= q < self@.len(),
            self.ids()[q] as int == id,
            self@[q] == self.entry(id as usize),
    {
        assert(self.slots.len() == self.slots@.len());
        assert(self.ids().contains(id as usize));
        choose|q: int| 0 <= q < self.ids().len() && self.ids()[q] == id as usize
    }

    proof fn lemma_live_keys_distinct(&self, a: int, b: int)
        requires
            self.wf(),
            self.live(a),
            self.live(b),
            a != b,
        ensures
            self.entry(a as usize).0 != self.entry(b as usize).0,
    {
        let p = self.lemma_live_in_view(a);
        let q = self.lemma_live_in_view(b);
    }

    /// Makes the entry in slot `id` the most recently used.
    fn promote(&mut self, id: usize)
        requires
            old(self).wf(),
            old(self).live(id as int),
        ensures
            final(self).wf(),
            final(self).slots == old(self).slots,
            final(self).max_len == old(self).max_len,
            final(self)@ == touch(old(self)@, old(self).entry(id).0),
    {
        let ghost before = *self;
        let ghost s1 = self@;
        recency_refresh(&mut self.order, id);
        proof {
            let q = before.lemma_live_in_view(id as int);
            lemma_remove_value_at(before.ids(), q);
            lemma_remove_key_at(s1, s1[q].0, q);
            let ids = self.ids();
            assert(ids =~= before.ids().remove(q).push(id));
            assert forall|j: int| 0 <= j < ids.len() implies #[trigger] self.live(ids[j] as int) by {
                if j < q {
                    assert(before.live(before.ids()[j] as int));
                } else if j < ids.len() - 1 {
                    assert(before.live(before.ids()[j + 1] as int));
                }
            }
            assert forall|k: int| #[trigger] self.live(k) implies ids.contains(k as usize) by {
                assert(before.live(k));
                let p = choose|p: int| 0 <= p < before.ids().len() && before.ids()[p] == k as usize;
                if p < q {
                    assert(ids[p] == k as usize);
                } else if p > q {
                    assert(ids[p - 1] == k as usize);
                } else {
                    assert(ids[ids.len() - 1] == k as usize);
                }
            }
            assert(self@ =~= s1.remove(q).push(s1[q]));
            assert(ids.no_duplicates());
            assert forall|a: int, b: int|
                0 <= a < self@.len() && 0 <= b < self@.len() && a != b implies self@[a].0
                != self@[b].0 by {
                let pa = if a < q { a } else if a < self@.len() - 1 { a + 1 } else { q };
                let pb = if b < q { b } else if b < self@.len() - 1 { b + 1 } else { q };
                assert(self@[a] == s1[pa]);
                assert(self@[b] == s1[pb]);
            }
        }
    }

    /// Drops the entry in slot `id`.
    fn drop_slot(&mut self, id: usize)
        requires
            old(self).wf(),
            old(self).live(id as int),
        ensures
            final(self).wf(),
            final(self).slots@ == old(self).slots@.update(id as int, None),
            final(self).max_len == old(self).max_len,
            final(self)@ == remove_key(old(self)@, old(self).entry(id).0),
    {
        let ghost before = *self;
        let ghost s1 = self@;
        recency_remove(&mut self.order, id);
        self.slots.set(id, None);
        proof {
            let q = before.lemma_live_in_view(id as int);
            lemma_remove_value_at(before.ids(), q);
            lemma_remove_key_at(s1, s1[q].0, q);
            let ids = self.ids();
            assert(ids =~= before.ids().remove(q));
            assert forall|j: int| 0 <= j < ids.len() implies #[trigger] self.live(ids[j] as int) by {
                if j < q {
                    assert(before.live(before.ids()[j] as int));
                    assert(before.ids()[j] != id);
                } else {
                    assert(before.live(before.ids()[j + 1] as int));
                    assert(before.ids()[j + 1] != id);
                }
            }
            assert forall|k: int| #[trigger] self.live(k) implies ids.contains(k as usize) by {
                assert(self.slots@[id as int] is None);
                assert(before.live(k));
                let p = choose|p: int| 0 <= p < before.ids().len() && before.ids()[p] == k as usize;
                assert(before.slots.len() == before.slots@.len());
                assert(before.ids()[p] as int == k);
                if p < q {
                    assert(ids[p] == k as usize);
                } else {
                    assert(p != q);
                    assert(ids[p - 1] == k as usize);
                }
            }
            assert forall|j: int| 0 <= j < ids.len() implies self.entry(ids[j]) == s1.remove(q)[j] by {
                if j < q {
                    assert(before.ids()[j] != id);
                    assert(before.live(before.ids()[j] as int));
                } else {
                    assert(before.ids()[j + 1] != id);
                    assert(before.live(before.ids()[j + 1] as int));
                }
            }
            assert(self@ =~= s1.remove(q));
            assert(ids.no_duplicates());
            assert forall|a: int, b: int|
                0 <= a < self@.len() && 0 <= b < self@.len() && a != b implies self@[a].0
                != self@[b].0 by {
                let pa = if a < q { a } else { a + 1 };
                let pb = if b < q { b } else { b + 1 };
                assert(self@[a] == s1[pa]);
                assert(self@[b] == s1[pb]);
            }
        }
    }

    /// The entries stored under `(name, kind, class)`, in ascending sub-key
    /// order. With `touch`, each of them in turn becomes the most recently used.
    pub fn range(&mut self, name: &Name, kind: RRKind, class: RRClass, touch: bool) -> (r:
        Vec<(SubKey, Value)>)
        requires
            old(self).wf(),
        ensures
            final(self).wf(),
            final(self).capacity() == old(self).capacity(),
            scan_view(r@) == prefix_scan(old(self)@, name@, kind, class),
            is_prefix_scan(scan_view(r@), old(self)@, name@, kind, class),
            touch ==> final(self)@ == touch_all(
                old(self)@,
                scan_keys(scan_view(r@), name@, kind, class),
            ),
            !touch ==> final(self)@ == old(self)@,
    {
        let ghost s0 = self@;
        let ghost nv = name@;
        let mut out: Vec<(SubKey, Value)> = Vec::new();
        let mut found: Vec<usize> = Vec::new();
        let mut i: usize = 0;
        while i < self.slots.len()
            invariant
                self.wf(),
                self@ == s0,
                nv == name@,
                i <= self.slots@.len(),
                out@.len() == found@.len(),
                sub_sorted(scan_view(out@)),
                forall|a: int|
                    0 <= a < found@.len() ==> #[trigger] found@[a] < i && self.live(found@[a] as int)
                        && self.entry(found@[a]) == scan_entry(nv, kind, class, out@[a]),
                forall|j: int|
                    0 <= j < i && #[trigger] self.live(j) && prefix_match(
                        self.entry(j as usize).0,
                        nv,
                        kind,
                        class,
                    ) ==> exists|a: int| 0 <= a < found@.len() && found@[a] == j,
            decreases self.slots@.len() - i,
        {
            match &self.slots[i] {
                Some(e) => {
                    if e.0.rr_kind == kind && e.0.rr_class == class && e.0.name.same(name) {
                        let pos = sorted_position(&out, &e.0.sub);
                        proof {
                            assert(self.live(i as int));
                            assert(self.entry(i).0 == e.0@);
                            assert forall|a: int| 0 <= a < out@.len() implies out@[a].0@
                                != e.0.sub@ by {
                                assert(self.live(found@[a] as int));
                                self.lemma_live_keys_distinct(found@[a] as int, i as int);
                            }
                            if pos < out@.len() {
                                lemma_sub_lt_order(out@[pos as int].0@, e.0.sub@, e.0.sub@);
                                assert forall|a: int| pos <= a < out@.len() implies sub_lt(
                                    e.0.sub@,
                                    out@[a].0@,
                                ) by {
                                    if a > pos {
                                        assert(sub_lt(
                                            scan_view(out@)[pos as int].0,
                                            scan_view(out@)[a].0,
                                        ));
                                        lemma_sub_lt_order(
                                            e.0.sub@,
                                            out@[pos as int].0@,
                                            out@[a].0@,
                                        );
                                    }
                                }
                            }
                        }
                        let ghost prev_out = out@;
                        let ghost prev_found = found@;
                        out.insert(pos, (e.0.sub.copy(), e.1.copy()));
                        found.insert(pos, i);
                        proof {
                            assert forall|a: int, b: int|
                                0 <= a < b < out@.len() implies sub_lt(
                                scan_view(out@)[a].0,
                                scan_view(out@)[b].0,
                            ) by {
                                let pa = if a < pos { a } else { a - 1 };
                                let pb = if b < pos { b } else { b - 1 };
                                if a != pos && b != pos {
                                    assert(sub_lt(
                                        scan_view(prev_out)[pa].0,
                                        scan_view(prev_out)[pb].0,
                                    ));
                                }
                            }
                            assert forall|a: int| 0 <= a < found@.len() implies found@[a] < i + 1
                                && #[trigger] self.live(found@[a] as int) && self.entry(found@[a])
                                == scan_entry(nv, kind, class, out@[a]) by {
                                if a < pos {
                                    assert(found@[a] == prev_found[a]);
                                    assert(self.live(prev_found[a] as int));
                                } else if a > pos {
                                    assert(found@[a] == prev_found[a - 1]);
                                    assert(self.live(prev_found[a - 1] as int));
                                }
                            }
                            assert forall|j: int|
                                0 <= j < i + 1 && #[trigger] self.live(j) && prefix_match(
                                    self.entry(j as usize).0,
                                    nv,
                                    kind,
                                    class,
                                ) implies exists|a: int| 0 <= a < found@.len() && found@[a] == j by {
                                if j == i {
                                    assert(found@[pos as int] == j);
                                } else {
                                    let a = choose|a: int|
                                        0 <= a < prev_found.len() && prev_found[a] == j;
                                    if a < pos {
                                        assert(found@[a] == j);
                                    } else {
                                        assert(found@[a + 1] == j);
                                    }
                                }
                            }
                        }
                    }
                },
                None => {},
            }
            i = i + 1;
        }
        proof {
            let rv = scan_view(out@);
            let members = prefix_members(s0, nv, kind, class);
            assert forall|e| rv.to_set().contains(e) implies members.contains(e) by {
                let a = choose|a: int| 0 <= a < rv.len() && rv[a] == e;
                assert(self.live(found@[a] as int));
                let q = self.lemma_live_in_view(found@[a] as int);
            }
            assert forall|e| members.contains(e) implies rv.to_set().contains(e) by {
                let p = choose|p: int|
                    0 <= p < s0.len() && prefix_match(s0[p].0, nv, kind, class) && e == (
                        s0[p].0.sub,
                        s0[p].1,
                    );
                assert(self.live(self.ids()[p] as int));
                let a = choose|a: int| 0 <= a < found@.len() && found@[a] == self.ids()[p];
                assert(rv[a] == e);
            }
            assert(rv.to_set() =~= members);
            lemma_prefix_scan_is(rv, s0, nv, kind, class);
        }
        if touch {
            let ghost keys = scan_keys(scan_view(out@), nv, kind, class);
            let ghost slots0 = self.slots;
            let mut a: usize = 0;
            assert(keys.subrange(0, 0) =~= Seq::<KeyV>::empty());
            while a < found.len()
                invariant
                    self.wf(),
                    self.slots == slots0,
                    self.max_len == old(self).max_len,
                    a <= found@.len(),
                    out@.len() == found@.len(),
                    keys == scan_keys(scan_view(out@), nv, kind, class),
                    forall|b: int|
                        0 <= b < found@.len() ==> #[trigger] self.live(found@[b] as int)
                            && self.entry(found@[b]) == scan_entry(nv, kind, class, out@[b]),
                    self@ == touch_all(s0, keys.subrange(0, a as int)),
                decreases found@.len() - a,
            {
                let ghost pre = *self;
                assert(self.live(found@[a as int] as int));
                self.promote(found[a]);
                assert(keys.subrange(0, a + 1).drop_last() =~= keys.subrange(0, a as int));
                assert forall|b: int| 0 <= b < found@.len() implies #[trigger] self.live(
                    found@[b] as int,
                ) && self.entry(found@[b]) == scan_entry(nv, kind, class, out@[b]) by {
                    assert(pre.live(found@[b] as int));
                }
                a = a + 1;
            }
            assert(keys.subrange(0, found@.len() as int) =~= keys);
        }
        out
    }

    /// Drops every entry stored under `(name, kind, class)`.
    pub fn remove_range(&mut self, name: &Name, kind: RRKind, class: RRClass)
        requires
            old(self).wf(),
        ensures
            final(self).wf(),
            final(self).capacity() == old(self).capacity(),
            final(self)@ == remove_prefix(old(self)@, name@, kind, class),
    {
        let ghost s0 = self@;
        let ghost start = *self;
        let ghost nv = name@;
        let ghost mut removed: Set<KeyV> = Set::empty();
        proof {
            lemma_filter_all(s0, keep(nv, kind, class, removed));
        }
        let mut i: usize = 0;
        while i < self.slots.len()
            invariant
                self.wf(),
                self.max_len == start.max_len,
                nv == name@,
                i <= self.slots@.len(),
                self.slots@.len() == start.slots@.len(),
                self@ == s0.filter(keep(nv, kind, class, removed)),
                forall|j: int|
                    0 <= j < i && #[trigger] start.live(j) && prefix_match(
                        start.entry(j as usize).0,
                        nv,
                        kind,
                        class,
                    ) ==> removed.contains(start.entry(j as usize).0),
                forall|j: int|
                    i <= j < self.slots@.len() ==> #[trigger] self.slots@[j] == start.slots@[j],
            decreases self.slots@.len() - i,
        {
            let matched = match &self.slots[i] {
                Some(e) => e.0.rr_kind == kind && e.0.rr_class == class && e.0.name.same(name),
                None => false,
            };
            if matched {
                let ghost v = self@;
                let ghost k = self.entry(i).0;
                proof {
                    let q = self.lemma_live_in_view(i as int);
                    s0.lemma_filter_pred(keep(nv, kind, class, removed), q);
                    assert(!removed.contains(k));
                    lemma_filter_twice(s0, keep(nv, kind, class, removed), key_ne(k));
                    lemma_filter_congruent(
                        s0,
                        keep(nv, kind, class, removed.insert(k)),
                        |e: Entry| keep(nv, kind, class, removed)(e) && key_ne(k)(e),
                    );
                }
                self.drop_slot(i);
                proof {
                    removed = removed.insert(k);
                }
            }
            i = i + 1;
        }
        proof {
            assert forall|p: int| 0 <= p < s0.len() implies keep(nv, kind, class, removed)(s0[p])
                == !prefix_match(s0[p].0, nv, kind, class) by {
                assert(start.live(start.ids()[p] as int));
            }
            lemma_filter_congruent(
                s0,
                keep(nv, kind, class, removed),
                |e: Entry| !prefix_match(e.0, nv, kind, class),
            );
        }
    }

    /// Drops the entry of `key`, if there is one.
    pub fn remove(&mut self, key: &Key)
        requires
            old(self).wf(),
        ensures
            final(self).wf(),
            final(self).capacity() == old(self).capacity(),
            final(self)@ == remove_key(old(self)@, key@),
    {
        match self.find(key) {
            Some(i) => {
                self.drop_slot(i);
            },
            None => {
                proof {
                    lemma_remove_key_absent(self@, key@);
                }
            },
        }
    }
}

/// Where `sub` goes in `out`, which is sorted by sub-key.
fn sorted_position(out: &Vec<(SubKey, Value)>, sub: &SubKey) -> (pos: usize)
    ensures
        pos <= out@.len(),
        forall|a: int| 0 <= a < pos ==> sub_lt(out@[a].0@, sub@),
        pos < out@.len() ==> !sub_lt(out@[pos as int].0@, sub@),
{
    let mut pos: usize = 0;
    while pos < out.len() && sub_less(&out[pos].0, sub)
        invariant
            pos <= out@.len(),
            forall|a: int| 0 <= a < pos ==> sub_lt(out@[a].0@, sub@),
        decreases out@.len() - pos,
    {
        pos = pos + 1;
    }
    pos
}

/// Entries not yet removed by a prefix sweep that has removed the keys `removed`.
pub open spec fn keep(name: Seq<u8>, kind: RRKind, class: RRClass, removed: Set<KeyV>) -> spec_fn(
    Entry,
) -> bool {
    |e: Entry| !(prefix_match(e.0, name, kind, class) && removed.contains(e.0))
}

/// The entry a scan result stands for.
pub open spec fn scan_entry(name: Seq<u8>, kind: RRKind, class: RRClass, e: (SubKey, Value)) -> Entry {
    (KeyV { name, rr_kind: kind, rr_class: class, sub: e.0@ }, e.1@)
}

pub open spec fn scan_view(v: Seq<(SubKey, Value)>) -> Seq<(SubKeyV, ValueV)> {
    v.map_values(|e: (SubKey, Value)| (e.0@, e.1@))
}

/// Touching keys reorders the entries and keeps the same ones.
pub proof fn lemma_touch_all_same_set(s: Seq<Entry>, ks: Seq<KeyV>)
    ensures
        touch_all(s, ks).to_set() == s.to_set(),
        touch_all(s, ks).len() == s.len(),
    decreases ks.len(),
{
    if ks.len() > 0 {
        lemma_touch_all_same_set(s, ks.drop_last());
        let t = touch_all(s, ks.drop_last());
        if has_key(t, ks.last()) {
            let p = key_index(t, ks.last());
            let u = t.remove(p).push(t[p]);
            assert forall|x| u.to_set().contains(x) <==> t.to_set().contains(x) by {
                if t.to_set().contains(x) {
                    let i = choose|i: int| 0 <= i < t.len() && t[i] == x;
                    if i < p {
                        assert(u[i] == x);
                    } else if i > p {
                        assert(u[i - 1] == x);
                    } else {
                        assert(u[u.len() - 1] == x);
                    }
                }
                if u.to_set().contains(x) {
                    let i = choose|i: int| 0 <= i < u.len() && u[i] == x;
                    if i < p {
                        assert(t[i] == x);
                    } else if i < u.len() - 1 {
                        assert(t[i + 1] == x);
                    } else {
                        assert(t[p] == x);
                    }
                }
            }
            assert(u.to_set() =~= t.to_set());
        }
    }
}

/// A scan depends only on which entries are stored.
pub proof fn lemma_scan_same_set(s: Seq<Entry>, t: Seq<Entry>, name: Seq<u8>, kind: RRKind, class: RRClass)
    requires
        s.to_set() == t.to_set(),
    ensures
        prefix_scan(s, name, kind, class) == prefix_scan(t, name, kind, class),
{
    assert forall|e| prefix_members(s, name, kind, class).contains(e) <==> prefix_members(
        t,
        name,
        kind,
        class,
    ).contains(e) by {
        if prefix_members(s, name, kind, class).contains(e) {
            let p = choose|p: int|
                0 <= p < s.len() && prefix_match(s[p].0, name, kind, class) && e == (
                    s[p].0.sub,
                    s[p].1,
                );
            assert(s.to_set().contains(s[p]));
            let q = choose|q: int| 0 <= q < t.len() && t[q] == s[p];
        }
        if prefix_members(t, name, kind, class).contains(e) {
            let p = choose|p: int|
                0 <= p < t.len() && prefix_match(t[p].0, name, kind, class) && e == (
                    t[p].0.sub,
                    t[p].1,
                );
            assert(t.to_set().contains(t[p]));
            let q = choose|q: int| 0 <= q < s.len() && s[q] == t[p];
        }
    }
    assert(prefix_members(s, name, kind, class) =~= prefix_members(t, name, kind, class));
}

/// What a filter keeps comes from the sequence and passes the predicate.
pub proof fn lemma_filter_subset<A>(s: Seq<A>, p: spec_fn(A) -> bool)
    ensures
        forall|x: A| #[trigger] s.filter(p).contains(x) ==> s.contains(x) && p(x),
{
    assert forall|x: A| #[trigger] s.filter(p).contains(x) implies s.contains(x) && p(x) by {
        s.lemma_filter_contains_rev(p, x);
        let i = choose|i: int| 0 <= i < s.filter(p).len() && s.filter(p)[i] == x;
        s.lemma_filter_pred(p, i);
    }
}

/// The store after inserting each pair of `kvs` in turn.
pub open spec fn insert_all(s: Seq<Entry>, cap: nat, kvs: Seq<Entry>) -> Seq<Entry>
    decreases kvs.len(),
{
    if kvs.len() == 0 {
        s
    } else {
        lru_insert(insert_all(s, cap, kvs.drop_last()), cap, kvs.last().0, kvs.last().1)
    }
}

/// After inserting entries with pairwise distinct keys into an empty store,
/// it holds the last `cap` of them (all of them while they fit), least
/// recent first: the earliest ones were evicted, in order.
pub proof fn lru_keeps_latest(cap: nat, kvs: Seq<Entry>)
    requires
        cap > 0,
        keys_unique(kvs),
    ensures
        insert_all(Seq::empty(), cap, kvs) == if kvs.len() <= cap {
            kvs
        } else {
            kvs.subrange(kvs.len() - cap, kvs.len() as int)
        },
    decreases kvs.len(),
{
    if kvs.len() > 0 {
        let n = kvs.len();
        let init = kvs.drop_last();
        assert(keys_unique(init));
        lru_keeps_latest(cap, init);
        let prev = insert_all(Seq::empty(), cap, init);
        let k = kvs.last().0;
        let ev = evict(prev, cap);
        assert(!has_key(ev, k)) by {
            if has_key(ev, k) {
                let i = choose|i: int| 0 <= i < ev.len() && ev[i].0 == k;
                if init.len() <= cap {
                    if prev.len() >= cap {
                        assert(ev[i] == init[i + 1]);
                    } else {
                        assert(ev[i] == init[i]);
                    }
                } else {
                    assert(ev[i] == init[init.len() - cap + i + 1]);
                }
            }
        }
        lemma_remove_key_absent(ev, k);
        if init.len() < cap {
            assert(ev.push(kvs.last()) =~= kvs);
        } else if init.len() == cap {
            assert(ev.push(kvs.last()) =~= kvs.subrange(n - cap, n as int));
        } else {
            assert(ev.push(kvs.last()) =~= kvs.subrange(n - cap, n as int));
        }
    }
}

} // verus!
