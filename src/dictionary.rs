//! Interning of keys: each distinct key gets a small id, in order of first
//! insertion, and an ordered index answers range queries.

use crate::bitmap::{bitmap_filled, bitmap_set, bits_of, BitMap};
use crate::key::{lemma_order_facts, OrderedKey};
use core::cmp::Ordering;
use core::ops::Range;
use vstd::prelude::*;

verus! {

/// The id a dictionary gives a key.
pub type KeyId = usize;

/// Whether `k` lies in the half-open range `[start, end)`; a missing bound
/// does not restrict.
pub open spec fn in_key_range<K: OrderedKey>(k: K::V, start: Option<K::V>, end: Option<K::V>) -> bool {
    &&& (start matches Some(s) ==> !K::key_lt(k, s))
    &&& (end matches Some(e) ==> K::key_lt(k, e))
}

/// The keys of a dictionary after `k` is inserted into one holding `s`.
pub open spec fn after_insert<V>(s: Seq<V>, k: V) -> Seq<V> {
    if s.contains(k) {
        s
    } else {
        s.push(k)
    }
}

/// The keys, by id, of a new dictionary into which `ks` was inserted in order.
pub open spec fn interned<V>(ks: Seq<V>) -> Seq<V>
    decreases ks.len(),
{
    if ks.len() == 0 {
        Seq::empty()
    } else {
        after_insert(interned(ks.drop_last()), ks.last())
    }
}

/// Whatever keys are inserted, a dictionary holds each distinct key once, so
/// its number of keys is the number of distinct keys inserted, and every
/// inserted key has an id whose key is that key.
pub proof fn lemma_interned_keys<V>(ks: Seq<V>)
    ensures
        interned(ks).no_duplicates(),
        interned(ks).to_set() == ks.to_set(),
        interned(ks).len() == ks.to_set().len(),
        forall|k: V| ks.contains(k) ==> exists|id: int|
            0 <= id < interned(ks).len() && #[trigger] interned(ks)[id] == k,
    decreases ks.len(),
{
    broadcast use Seq::lemma_push_to_set_commute;
    if ks.len() > 0 {
        let prev = ks.drop_last();
        lemma_interned_keys(prev);
        assert(ks =~= prev.push(ks.last()));
        if interned(prev).contains(ks.last()) {
            assert(prev.to_set().contains(ks.last()));
            assert(ks.to_set() =~= prev.to_set());
        }
    }
    interned(ks).unique_seq_to_set();
    assert forall|k: V| ks.contains(k) implies exists|id: int|
        0 <= id < interned(ks).len() && #[trigger] interned(ks)[id] == k by {
        assert(ks.to_set().contains(k));
        assert(interned(ks).to_set().contains(k));
    }
}

/// Ids never change: the keys interned from a prefix of `ks` are a prefix of
/// those interned from all of `ks`, so a key keeps the id it first received.
pub proof fn lemma_interned_ids_stable<V>(ks: Seq<V>, i: int)
    requires
        0 <= i <= ks.len(),
    ensures
        interned(ks.take(i)).len() <= interned(ks).len(),
        interned(ks).take(interned(ks.take(i)).len() as int) == interned(ks.take(i)),
    decreases ks.len() - i,
{
    if i == ks.len() {
        assert(ks.take(i) =~= ks);
        assert(interned(ks).take(interned(ks).len() as int) =~= interned(ks));
    } else {
        lemma_interned_ids_stable(ks, i + 1);
        let a = interned(ks.take(i));
        let b = interned(ks.take(i + 1));
        assert(ks.take(i + 1).drop_last() =~= ks.take(i));
        assert(b.take(a.len() as int) =~= a);
        assert(interned(ks).take(a.len() as int) =~= interned(ks).take(b.len() as int).take(
            a.len() as int,
        ));
    }
}

/// The view of an optional bound.
pub open spec fn bound_view<K: View>(b: Option<&K>) -> Option<K::V> {
    match b {
        Some(k) => Some(k@),
        None => None,
    }
}

/// A bidirectional map between keys and ids. Ids are handed out from 0 in
/// order of first insertion and never change.
#[derive(PartialEq, Eq, Debug, Clone)]
pub struct Dictionary<Key: OrderedKey> {
    /// The key of each id.
    keys: Vec<Key>,
    /// All ids, sorted by their keys.
    sorted: Vec<KeyId>,
}

impl<Key: OrderedKey> View for Dictionary<Key> {
    /// The keys, indexed by id.
    type V = Seq<Key::V>;

    closed spec fn view(&self) -> Seq<Key::V> {
        self.keys@.map_values(|k: Key| k@)
    }
}

impl<Key: OrderedKey> Dictionary<Key> {
    spec fn key_at_pos(&self, j: int) -> Key::V {
        self@[self.sorted@[j] as int]
    }

    spec fn is_listed(&self, i: int) -> bool {
        exists|j: int| 0 <= j < self.sorted@.len() && #[trigger] self.sorted@[j] == i
    }

    /// The internal invariant: `sorted` lists every id once, in strictly
    /// increasing order of keys.
    pub closed spec fn wf(&self) -> bool {
        &&& self.sorted@.len() == self.keys@.len()
        &&& forall|j: int| 0 <= j < self.sorted@.len() ==> #[trigger] self.sorted@[j] < self.keys@.len()
        &&& forall|i: int| 0 <= i < self.keys@.len() ==> #[trigger] self.is_listed(i)
        &&& forall|j: int, k: int|
            0 <= j < k < self.sorted@.len() ==> Key::key_lt(
                #[trigger] self.key_at_pos(j),
                #[trigger] self.key_at_pos(k),
            )
    }

    /// No key is held twice.
    pub proof fn lemma_distinct(&self)
        requires
            self.wf(),
        ensures
            self@.no_duplicates(),
    {
        lemma_order_facts::<Key>();
        assert forall|a: int, b: int| 0 <= a < b < self@.len() implies self@[a] != self@[b] by {
            assert(self.is_listed(a) && self.is_listed(b));
            let ja = choose|j: int| 0 <= j < self.sorted@.len() && #[trigger] self.sorted@[j] == a;
            let jb = choose|j: int| 0 <= j < self.sorted@.len() && #[trigger] self.sorted@[j] == b;
            if ja < jb {
                assert(Key::key_lt(self.key_at_pos(ja), self.key_at_pos(jb)));
            } else {
                assert(Key::key_lt(self.key_at_pos(jb), self.key_at_pos(ja)));
            }
        }
    }

    /// Creates an empty dictionary.
    pub fn new() -> (r: Dictionary<Key>)
        ensures
            r.wf(),
            r@ == Seq::<Key::V>::empty(),
    {
        let r = Dictionary { keys: Vec::new(), sorted: Vec::new() };
        assert(r@ =~= Seq::<Key::V>::empty());
        r
    }

    /// The number of distinct keys.
    pub fn num_keys(&self) -> (r: KeyId)
        requires
            self.wf(),
        ensures
            r == self@.len(),
    {
        self.keys.len()
    }

    /// The first position in the index whose key is not below `key`.
    fn lower_bound(&self, key: &Key) -> (p: usize)
        requires
            self.wf(),
        ensures
            p <= self.sorted@.len(),
            forall|j: int| 0 <= j < p ==> Key::key_lt(#[trigger] self.key_at_pos(j), key@),
            forall|j: int|
                p <= j < self.sorted@.len() ==> !Key::key_lt(#[trigger] self.key_at_pos(j), key@),
    {
        proof {
            lemma_order_facts::<Key>();
        }
        let mut lo: usize = 0;
        let mut hi: usize = self.sorted.len();
        while lo < hi
            invariant
                self.wf(),
                lo <= hi <= self.sorted@.len(),
                forall|j: int| 0 <= j < lo ==> Key::key_lt(#[trigger] self.key_at_pos(j), key@),
                forall|j: int|
                    hi <= j < self.sorted@.len() ==> !Key::key_lt(#[trigger] self.key_at_pos(j), key@),
            decreases hi - lo,
        {
            proof {
                lemma_order_facts::<Key>();
            }
            let mid = lo + (hi - lo) / 2;
            let id = self.sorted[mid];
            assert(self.keys@[id as int]@ == self.key_at_pos(mid as int));
            let c = self.keys[id].compare(key);
            match c {
                Ordering::Less => {
                    assert(Key::key_lt(self.key_at_pos(mid as int), key@));
                    assert forall|j: int| 0 <= j < mid + 1 implies Key::key_lt(
                        #[trigger] self.key_at_pos(j),
                        key@,
                    ) by {
                        if j < mid {
                            assert(Key::key_lt(self.key_at_pos(j), self.key_at_pos(mid as int)));
                        }
                    }
                    lo = mid + 1;
                },
                _ => {
                    assert forall|j: int| mid <= j < self.sorted@.len() implies !Key::key_lt(
                        #[trigger] self.key_at_pos(j),
                        key@,
                    ) by {
                        if mid < j {
                            assert(Key::key_lt(self.key_at_pos(mid as int), self.key_at_pos(j)));
                        }
                    }
                    hi = mid;
                },
            }
        }
        lo
    }

    /// Registers `key`. A key already present keeps its id; a new key gets
    /// the next id.
    pub fn insert(&mut self, key: Key) -> (id: KeyId)
        requires
            old(self).wf(),
        ensures
            final(self).wf(),
            final(self)@ == after_insert(old(self)@, key@),
            old(self)@.contains(key@) ==> final(self)@ == old(self)@ && id < old(self)@.len()
                && old(self)@[id as int] == key@,
            !old(self)@.contains(key@) ==> final(self)@ == old(self)@.push(key@) && id
                == old(self)@.len(),
    {
        proof {
            lemma_order_facts::<Key>();
        }
        let pos = self.lower_bound(&key);
        if pos < self.sorted.len() {
            let found = self.sorted[pos];
            if matches!(self.keys[found].compare(&key), Ordering::Equal) {
                assert(self.keys@[found as int]@ == self@[found as int]);
                return found;
            }
        }
        let ghost old_self = *self;
        let ghost n = self@.len();
        // the key is absent: everything from `pos` on lies above it
        assert forall|j: int| pos <= j < self.sorted@.len() implies Key::key_lt(
            key@,
            #[trigger] self.key_at_pos(j),
        ) by {
            assert(self.key_at_pos(pos as int) != key@);
            if pos < j {
                assert(Key::key_lt(self.key_at_pos(pos as int), self.key_at_pos(j)));
            }
        }
        assert(!self@.contains(key@)) by {
            if self@.contains(key@) {
                let i = choose|i: int| 0 <= i < self@.len() && self@[i] == key@;
                assert(self.is_listed(i));
                let j = choose|j: int| 0 <= j < self.sorted@.len() && #[trigger] self.sorted@[j] == i;
                assert(self.key_at_pos(j) == key@);
            }
        }
        let id = self.keys.len();
        self.keys.push(key);
        self.sorted.insert(pos, id);
        assert(self@ =~= old_self@.push(key@));
        assert forall|j: int| 0 <= j < self.sorted@.len() implies #[trigger] self.sorted@[j]
            < self.keys@.len() by {
            if j < pos {
                assert(self.sorted@[j] == old_self.sorted@[j]);
            } else if j > pos {
                assert(self.sorted@[j] == old_self.sorted@[j - 1]);
            }
        }
        assert forall|i: int| 0 <= i < self.keys@.len() implies #[trigger] self.is_listed(i) by {
            if i == n {
                assert(self.sorted@[pos as int] == i);
            } else {
                assert(old_self.is_listed(i));
                let j = choose|j: int| 0 <= j < old_self.sorted@.len() && #[trigger] old_self.sorted@[j] == i;
                if j < pos {
                    assert(self.sorted@[j] == i);
                } else {
                    assert(self.sorted@[j + 1] == i);
                }
            }
        }
        assert forall|j: int| 0 <= j < self.sorted@.len() implies #[trigger] self.key_at_pos(j) == (
        if j < pos {
            old_self.key_at_pos(j)
        } else if j == pos {
            key@
        } else {
            old_self.key_at_pos(j - 1)
        }) by {
            if j < pos {
                assert(self.sorted@[j] == old_self.sorted@[j]);
            } else if j > pos {
                assert(self.sorted@[j] == old_self.sorted@[j - 1]);
            }
        }
        assert forall|j: int, k: int| 0 <= j < k < self.sorted@.len() implies Key::key_lt(
            #[trigger] self.key_at_pos(j),
            #[trigger] self.key_at_pos(k),
        ) by {
            if j < pos && k < pos {
                assert(Key::key_lt(old_self.key_at_pos(j), old_self.key_at_pos(k)));
            } else if j < pos && k == pos {
            } else if j < pos {
                assert(Key::key_lt(old_self.key_at_pos(j), old_self.key_at_pos(k - 1)));
            } else if j == pos {
                assert(Key::key_lt(key@, old_self.key_at_pos(k - 1)));
            } else {
                assert(Key::key_lt(old_self.key_at_pos(j - 1), old_self.key_at_pos(k - 1)));
            }
        }
        id
    }

    /// The id of `key`, or `None` if it was never inserted.
    pub fn id_of(&self, key: &Key) -> (r: Option<KeyId>)
        requires
            self.wf(),
        ensures
            r matches Some(id) ==> id < self@.len() && self@[id as int] == key@,
            r is None <==> !self@.contains(key@),
    {
        proof {
            lemma_order_facts::<Key>();
        }
        let pos = self.lower_bound(key);
        if pos < self.sorted.len() {
            let found = self.sorted[pos];
            if matches!(self.keys[found].compare(key), Ordering::Equal) {
                assert(self.keys@[found as int]@ == self@[found as int]);
                return Some(found);
            }
        }
        assert(!self@.contains(key@)) by {
            if self@.contains(key@) {
                let i = choose|i: int| 0 <= i < self@.len() && self@[i] == key@;
                assert(self.is_listed(i));
                let j = choose|j: int| 0 <= j < self.sorted@.len() && #[trigger] self.sorted@[j] == i;
                assert(self.key_at_pos(j) == key@);
                if pos < j {
                    assert(Key::key_lt(self.key_at_pos(pos as int), self.key_at_pos(j)));
                }
            }
        }
        None
    }

    /// The key of id `key_id`.
    pub fn key_of(&self, key_id: KeyId) -> (r: &Key)
        requires
            self.wf(),
            key_id < self@.len(),
        ensures
            r@ == self@[key_id as int],
    {
        &self.keys[key_id]
    }

    /// The positions `[lo, hi)` of the index whose keys lie in the range.
    fn positions_in(&self, start: Option<&Key>, end: Option<&Key>) -> (r: (usize, usize))
        requires
            self.wf(),
        ensures
            r.0 <= r.1 <= self.sorted@.len(),
            forall|j: int|
                0 <= j < self.sorted@.len() ==> (in_key_range::<Key>(
                    #[trigger] self.key_at_pos(j),
                    bound_view(start),
                    bound_view(end),
                ) <==> r.0 <= j < r.1),
    {
        proof {
            lemma_order_facts::<Key>();
        }
        let lo = match start {
            Some(s) => self.lower_bound(s),
            None => 0,
        };
        let hi = match end {
            Some(e) => self.lower_bound(e),
            None => self.sorted.len(),
        };
        let hi = if hi < lo {
            lo
        } else {
            hi
        };
        (lo, hi)
    }

    /// The keys in `[range.start, range.end)` with their ids, in increasing
    /// order of keys.
    pub fn range(&self, range: Range<Key>) -> (r: Vec<(Key, KeyId)>)
        requires
            self.wf(),
        ensures
            forall|i: int|
                0 <= i < r@.len() ==> {
                    &&& (#[trigger] r@[i]).1 < self@.len()
                    &&& self@[r@[i].1 as int] == r@[i].0@
                    &&& in_key_range::<Key>(r@[i].0@, Some(range.start@), Some(range.end@))
                },
            forall|i: int, k: int|
                0 <= i < k < r@.len() ==> Key::key_lt((#[trigger] r@[i]).0@, (#[trigger] r@[k]).0@),
            forall|id: int|
                0 <= id < self@.len() && in_key_range::<Key>(
                    #[trigger] self@[id],
                    Some(range.start@),
                    Some(range.end@),
                ) ==> exists|i: int| 0 <= i < r@.len() && r@[i].1 == id,
    {
        let (lo, hi) = self.positions_in(Some(&range.start), Some(&range.end));
        let mut r: Vec<(Key, KeyId)> = Vec::new();
        let mut j = lo;
        while j < hi
            invariant
                self.wf(),
                lo <= j <= hi <= self.sorted@.len(),
                r@.len() == j - lo,
                forall|t: int|
                    0 <= t < r@.len() ==> (#[trigger] r@[t]).1 == self.sorted@[lo + t]
                        && r@[t].0@ == self.key_at_pos(lo + t),
            decreases hi - j,
        {
            let id = self.sorted[j];
            r.push((self.keys[id].copy_key(), id));
            j += 1;
        }
        assert forall|i: int| 0 <= i < r@.len() implies {
            &&& (#[trigger] r@[i]).1 < self@.len()
            &&& self@[r@[i].1 as int] == r@[i].0@
            &&& in_key_range::<Key>(r@[i].0@, Some(range.start@), Some(range.end@))
        } by {
            assert(self.key_at_pos(lo + i) == r@[i].0@);
        }
        assert forall|i: int, k: int| 0 <= i < k < r@.len() implies Key::key_lt(
            (#[trigger] r@[i]).0@,
            (#[trigger] r@[k]).0@,
        ) by {
            assert(Key::key_lt(self.key_at_pos(lo + i), self.key_at_pos(lo + k)));
        }
        assert forall|id: int|
            0 <= id < self@.len() && in_key_range::<Key>(
                #[trigger] self@[id],
                Some(range.start@),
                Some(range.end@),
            ) implies exists|i: int| 0 <= i < r@.len() && r@[i].1 == id by {
            assert(self.is_listed(id));
            let j = choose|j: int| 0 <= j < self.sorted@.len() && #[trigger] self.sorted@[j] == id;
            assert(self.key_at_pos(j) == self@[id]);
            assert(r@[j - lo].1 == id);
        }
        r
    }

    /// A bitmap of `num_keys` bits in which the bit of an id is set exactly
    /// when its key lies in the range; a missing bound does not restrict.
    pub fn range_into_bits(&self, start: Option<&Key>, end: Option<&Key>) -> (r: BitMap)
        requires
            self.wf(),
        ensures
            bits_of(r) == Seq::new(
                self@.len(),
                |id: int| in_key_range::<Key>(self@[id], bound_view(start), bound_view(end)),
            ),
    {
        let (lo, hi) = self.positions_in(start, end);
        let mut bits = bitmap_filled(self.keys.len(), false);
        let mut j = lo;
        while j < hi
            invariant
                self.wf(),
                lo <= j <= hi <= self.sorted@.len(),
                bits_of(bits).len() == self@.len(),
                forall|id: int|
                    0 <= id < self@.len() ==> #[trigger] bits_of(bits)[id] == exists|t: int|
                        lo <= t < j && self.sorted@[t] == id,
            decreases hi - j,
        {
            let id = self.sorted[j];
            bitmap_set(&mut bits, id, true);
            assert forall|i: int|
                0 <= i < self@.len() implies #[trigger] bits_of(bits)[i] == exists|t: int|
                    lo <= t < j + 1 && self.sorted@[t] == i by {
                if i == id {
                    assert(self.sorted@[j as int] == i);
                }
            }
            j += 1;
        }
        proof {
            lemma_order_facts::<Key>();
        }
        let ghost want = Seq::new(
            self@.len(),
            |id: int| in_key_range::<Key>(self@[id], bound_view(start), bound_view(end)),
        );
        assert forall|id: int| 0 <= id < self@.len() implies #[trigger] bits_of(bits)[id] == want[id] by {
            assert(self.is_listed(id));
            let j = choose|j: int| 0 <= j < self.sorted@.len() && #[trigger] self.sorted@[j] == id;
            assert(self.key_at_pos(j) == self@[id]);
            if bits_of(bits)[id] {
                let t = choose|t: int| lo <= t < hi && self.sorted@[t] == id;
                if t != j {
                    assert(Key::key_lt(self.key_at_pos(t), self.key_at_pos(j)) || Key::key_lt(
                        self.key_at_pos(j),
                        self.key_at_pos(t),
                    ));
                }
            }
        }
        assert(bits_of(bits) =~= want);
        bits
    }
}

} // verus!
