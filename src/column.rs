//! Dictionary-encoded columns: one id per row, with a reserved id for null.

use crate::bitmap::{bits_of, BitMap};
use crate::dictionary::{bound_view, in_key_range, Dictionary, KeyId};
use crate::key::OrderedKey;
use core::ops::Range;
use vstd::prelude::*;

verus! {

/// The id that marks a null row. No key ever gets it: an id is an index into
/// the dictionary's keys, so it stays below `usize::MAX`.
pub const NULL_KEY_ID: KeyId = usize::MAX;

/// Row index.
pub type RowId = usize;

/// A column: a dictionary of its distinct keys and the id of each row.
#[derive(PartialEq, Eq, Debug, Clone)]
pub struct Column<Key: OrderedKey> {
    dictionary: Dictionary<Key>,
    key_ids: Vec<KeyId>,
}

impl<Key: OrderedKey> Column<Key> {
    /// The distinct keys, by id.
    pub closed spec fn keys(&self) -> Seq<Key::V> {
        self.dictionary@
    }

    /// The id of each row.
    pub closed spec fn ids(&self) -> Seq<KeyId> {
        self.key_ids@
    }

    /// The key of each row, `None` for null.
    pub open spec fn rows(&self) -> Seq<Option<Key::V>> {
        self.ids().map_values(
            |id: KeyId|
                if id == NULL_KEY_ID {
                    None
                } else {
                    Some(self.keys()[id as int])
                },
        )
    }

    /// Every row holds the null id or the id of a key.
    pub closed spec fn wf(&self) -> bool {
        &&& self.dictionary.wf()
        &&& self.dictionary@.len() <= usize::MAX
        &&& forall|r: int|
            0 <= r < self.key_ids@.len() ==> #[trigger] self.key_ids@[r] == NULL_KEY_ID
                || self.key_ids@[r] < self.dictionary@.len()
    }

    /// What the invariant gives callers: there are fewer keys than the null
    /// id, and each row holds the null id or the id of a key.
    pub proof fn lemma_wf(&self)
        requires
            self.wf(),
        ensures
            self.keys().len() <= NULL_KEY_ID,
            self.keys().no_duplicates(),
            forall|r: int|
                0 <= r < self.ids().len() ==> #[trigger] self.ids()[r] == NULL_KEY_ID
                    || self.ids()[r] < self.keys().len(),
    {
        self.dictionary.lemma_distinct();
    }

    /// Creates an empty column.
    pub fn new() -> (r: Column<Key>)
        ensures
            r.wf(),
            r.keys() == Seq::<Key::V>::empty(),
            r.ids() == Seq::<KeyId>::empty(),
    {
        Column { dictionary: Dictionary::new(), key_ids: Vec::new() }
    }

    /// The number of distinct keys.
    pub fn num_keys(&self) -> (r: KeyId)
        requires
            self.wf(),
        ensures
            r == self.keys().len(),
    {
        self.dictionary.num_keys()
    }

    /// The number of rows.
    pub fn num_rows(&self) -> (r: RowId)
        requires
            self.wf(),
        ensures
            r == self.ids().len(),
    {
        self.key_ids.len()
    }

    /// Appends a row holding `key` and returns its id.
    pub fn append(&mut self, key: Key) -> (id: KeyId)
        requires
            old(self).wf(),
        ensures
            final(self).wf(),
            final(self).keys() == crate::dictionary::after_insert(old(self).keys(), key@),
            final(self).ids() == old(self).ids().push(id),
            id < final(self).keys().len(),
            final(self).keys()[id as int] == key@,
            old(self).keys().contains(key@) ==> old(self).keys()[id as int] == key@,
            final(self).rows() == old(self).rows().push(Some(key@)),
    {
        let ghost k = key@;
        let key_id = self.dictionary.insert(key);
        let n_keys = self.dictionary.num_keys();
        assert(key_id < n_keys);
        self.key_ids.push(key_id);
        assert forall|r: int|
            0 <= r < self.key_ids@.len() implies #[trigger] self.key_ids@[r] == NULL_KEY_ID
            || self.key_ids@[r] < self.dictionary@.len() by {
            if r < old(self).key_ids@.len() {
                assert(old(self).key_ids@[r] == self.key_ids@[r]);
            }
        }
        assert forall|r: int| 0 <= r < old(self).key_ids@.len() implies #[trigger] self.rows()[r]
            == old(self).rows()[r] by {
            let id = old(self).key_ids@[r];
            if id != NULL_KEY_ID {
                assert(self.dictionary@[id as int] == old(self).dictionary@[id as int]);
            }
        }
        assert(self.rows() =~= old(self).rows().push(Some(k)));
        key_id
    }

    /// Appends a null row and returns the null id.
    pub fn append_null(&mut self) -> (id: KeyId)
        requires
            old(self).wf(),
        ensures
            final(self).wf(),
            id == NULL_KEY_ID,
            final(self).keys() == old(self).keys(),
            final(self).ids() == old(self).ids().push(NULL_KEY_ID),
            final(self).rows() == old(self).rows().push(None),
    {
        self.key_ids.push(NULL_KEY_ID);
        assert forall|r: int|
            0 <= r < self.key_ids@.len() implies #[trigger] self.key_ids@[r] == NULL_KEY_ID
            || self.key_ids@[r] < self.dictionary@.len() by {
            if r < old(self).key_ids@.len() {
                assert(old(self).key_ids@[r] == self.key_ids@[r]);
            }
        }
        assert(self.rows() =~= old(self).rows().push(None));
        NULL_KEY_ID
    }

    /// Removes the last row and returns its id; `None` when there is no row.
    pub fn pop(&mut self) -> (r: Option<KeyId>)
        requires
            old(self).wf(),
        ensures
            final(self).wf(),
            final(self).keys() == old(self).keys(),
            old(self).ids().len() == 0 ==> r is None && final(self).ids() == old(self).ids(),
            old(self).ids().len() > 0 ==> r == Some(old(self).ids().last()) && final(self).ids()
                == old(self).ids().drop_last(),
            final(self).rows() == (if old(self).ids().len() == 0 {
                old(self).rows()
            } else {
                old(self).rows().drop_last()
            }),
    {
        let r = self.key_ids.pop();
        assert forall|i: int|
            0 <= i < self.key_ids@.len() implies #[trigger] self.key_ids@[i] == NULL_KEY_ID
            || self.key_ids@[i] < self.dictionary@.len() by {
            assert(old(self).key_ids@[i] == self.key_ids@[i]);
        }
        proof {
            if old(self).key_ids@.len() > 0 {
                assert(self.rows() =~= old(self).rows().drop_last());
            }
        }
        r
    }

    /// The id of `key`, or `None` if no row ever held it.
    pub fn id_of(&self, key: &Key) -> (r: Option<KeyId>)
        requires
            self.wf(),
        ensures
            r matches Some(id) ==> id < self.keys().len() && self.keys()[id as int] == key@,
            r is None <==> !self.keys().contains(key@),
    {
        self.dictionary.id_of(key)
    }

    /// The keys in `[range.start, range.end)` with their ids, in increasing
    /// order of keys.
    pub fn range(&self, range: Range<Key>) -> (r: Vec<(Key, KeyId)>)
        requires
            self.wf(),
        ensures
            forall|i: int|
                0 <= i < r@.len() ==> {
                    &&& (#[trigger] r@[i]).1 < self.keys().len()
                    &&& self.keys()[r@[i].1 as int] == r@[i].0@
                    &&& in_key_range::<Key>(r@[i].0@, Some(range.start@), Some(range.end@))
                },
            forall|i: int, k: int|
                0 <= i < k < r@.len() ==> Key::key_lt((#[trigger] r@[i]).0@, (#[trigger] r@[k]).0@),
            forall|id: int|
                0 <= id < self.keys().len() && in_key_range::<Key>(
                    #[trigger] self.keys()[id],
                    Some(range.start@),
                    Some(range.end@),
                ) ==> exists|i: int| 0 <= i < r@.len() && r@[i].1 == id,
    {
        self.dictionary.range(range)
    }

    /// A bitmap over the ids, set where the key lies in the range.
    pub fn range_into_bits(&self, start: Option<&Key>, end: Option<&Key>) -> (r: BitMap)
        requires
            self.wf(),
        ensures
            bits_of(r) == Seq::new(
                self.keys().len(),
                |id: int| in_key_range::<Key>(self.keys()[id], bound_view(start), bound_view(end)),
            ),
    {
        self.dictionary.range_into_bits(start, end)
    }

    /// The key of id `key_id`.
    pub fn key_of(&self, key_id: KeyId) -> (r: &Key)
        requires
            self.wf(),
            key_id < self.keys().len(),
        ensures
            r@ == self.keys()[key_id as int],
    {
        self.dictionary.key_of(key_id)
    }

    /// The id of row `row_id`.
    pub fn id_at(&self, row_id: RowId) -> (r: KeyId)
        requires
            self.wf(),
            row_id < self.ids().len(),
        ensures
            r == self.ids()[row_id as int],
            r == NULL_KEY_ID || r < self.keys().len(),
    {
        self.key_ids[row_id]
    }

    /// The key of row `row_id`, `None` if the row is null.
    pub fn key_at(&self, row_id: RowId) -> (r: Option<&Key>)
        requires
            self.wf(),
            row_id < self.ids().len(),
        ensures
            r is None <==> self.rows()[row_id as int] is None,
            r matches Some(k) ==> self.rows()[row_id as int] == Some(k@),
    {
        let key_id = self.id_at(row_id);
        if key_id == NULL_KEY_ID {
            return None;
        }
        Some(self.key_of(key_id))
    }
}

/// One change to a column's rows.
pub enum ColumnOp<V> {
    /// `append` of a key.
    Append(V),
    /// `append_null`.
    AppendNull,
    /// `pop`.
    Pop,
}

/// The rows of an empty column after `ops`, changed as `append`,
/// `append_null` and `pop` change them.
pub open spec fn replay<V>(ops: Seq<ColumnOp<V>>) -> Seq<Option<V>>
    decreases ops.len(),
{
    if ops.len() == 0 {
        Seq::empty()
    } else {
        let prev = replay(ops.drop_last());
        match ops.last() {
            ColumnOp::Append(k) => prev.push(Some(k)),
            ColumnOp::AppendNull => prev.push(None),
            ColumnOp::Pop => if prev.len() == 0 {
                prev
            } else {
                prev.drop_last()
            },
        }
    }
}

/// Which of the remaining rows were added by `append_null`.
pub open spec fn null_marks<V>(ops: Seq<ColumnOp<V>>) -> Seq<bool>
    decreases ops.len(),
{
    if ops.len() == 0 {
        Seq::empty()
    } else {
        let prev = null_marks(ops.drop_last());
        match ops.last() {
            ColumnOp::Append(_) => prev.push(false),
            ColumnOp::AppendNull => prev.push(true),
            ColumnOp::Pop => if prev.len() == 0 {
                prev
            } else {
                prev.drop_last()
            },
        }
    }
}

/// The number of appends plus nulls minus pops.
pub open spec fn net_rows<V>(ops: Seq<ColumnOp<V>>) -> int
    decreases ops.len(),
{
    if ops.len() == 0 {
        0
    } else {
        net_rows(ops.drop_last()) + match ops.last() {
            ColumnOp::Pop => -1int,
            _ => 1int,
        }
    }
}

/// Whether every pop finds a row to remove.
pub open spec fn pops_ok<V>(ops: Seq<ColumnOp<V>>) -> bool
    decreases ops.len(),
{
    ops.len() == 0 || (pops_ok(ops.drop_last()) && (ops.last() is Pop ==> net_rows(ops.drop_last()) > 0))
}

/// After any sequence of changes whose pops each find a row, a column has
/// appends plus nulls minus pops rows, and a row is null exactly when it was
/// added by `append_null`.
pub proof fn lemma_column_ops<V>(ops: Seq<ColumnOp<V>>)
    requires
        pops_ok(ops),
    ensures
        replay(ops).len() == net_rows(ops),
        null_marks(ops).len() == replay(ops).len(),
        forall|r: int| 0 <= r < replay(ops).len() ==> (#[trigger] replay(ops)[r] is None <==> null_marks(ops)[r]),
    decreases ops.len(),
{
    if ops.len() > 0 {
        lemma_column_ops(ops.drop_last());
    }
}

} // verus!
