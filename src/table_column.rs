//! Columns of a table: a closed choice between the supported domains, which
//! checks every value against the column's own domain.

use crate::bitmap::{bits_of, BitMap};
use crate::column::{Column, RowId, NULL_KEY_ID};
use crate::dictionary::KeyId;
use crate::key::text_lt;
use crate::value::{domain_accepts, in_domain, TypeKind, Value, ValueView, NULL};
use core::ops::Range;
use vstd::prelude::*;

verus! {

/// Whether `a` is below `b`: both non-null values of one domain, in that
/// domain's order.
pub open spec fn value_lt(a: ValueView, b: ValueView) -> bool {
    match (a, b) {
        (ValueView::Varchar(x), ValueView::Varchar(y)) => text_lt(x, y),
        (ValueView::Integer(x), ValueView::Integer(y)) => x < y,
        _ => false,
    }
}

/// A column of one of the supported domains.
#[derive(PartialEq, Eq, Debug, Clone)]
pub enum TableColumn {
    /// A column of text.
    Varchar(Column<String>),
    /// A column of integers.
    Integer(Column<i32>),
}

impl TableColumn {
    /// The column's domain.
    pub open spec fn kind(&self) -> TypeKind {
        match self {
            TableColumn::Varchar(_) => TypeKind::Varchar,
            TableColumn::Integer(_) => TypeKind::Integer,
        }
    }

    /// The invariant of the underlying column.
    pub open spec fn wf(&self) -> bool {
        match self {
            TableColumn::Varchar(c) => c.wf(),
            TableColumn::Integer(c) => c.wf(),
        }
    }

    /// The number of distinct keys.
    pub open spec fn key_count(&self) -> nat {
        match self {
            TableColumn::Varchar(c) => c.keys().len(),
            TableColumn::Integer(c) => c.keys().len(),
        }
    }

    /// The id of each row.
    pub open spec fn ids(&self) -> Seq<KeyId> {
        match self {
            TableColumn::Varchar(c) => c.ids(),
            TableColumn::Integer(c) => c.ids(),
        }
    }

    /// The value that id `id` stands for: its key, or null for any other id.
    pub open spec fn key_value(&self, id: int) -> ValueView {
        if 0 <= id < self.key_count() {
            match self {
                TableColumn::Varchar(c) => ValueView::Varchar(c.keys()[id]),
                TableColumn::Integer(c) => ValueView::Integer(c.keys()[id]),
            }
        } else {
            ValueView::Null
        }
    }

    /// The value of each row.
    pub open spec fn values(&self) -> Seq<ValueView> {
        Seq::new(self.ids().len(), |r: int| self.key_value(self.ids()[r] as int))
    }

    /// What the invariant gives callers.
    pub proof fn lemma_wf(&self)
        requires
            self.wf(),
        ensures
            self.key_count() <= NULL_KEY_ID,
            forall|r: int|
                0 <= r < self.ids().len() ==> #[trigger] self.ids()[r] == NULL_KEY_ID
                    || self.ids()[r] < self.key_count(),
            forall|id: int| 0 <= id < self.key_count() ==> in_domain(self.kind(), #[trigger] self.key_value(id)),
            forall|i: int, j: int|
                0 <= i < self.key_count() && 0 <= j < self.key_count() && i != j ==> #[trigger] self.key_value(i)
                    != #[trigger] self.key_value(j),
    {
        match self {
            TableColumn::Varchar(c) => c.lemma_wf(),
            TableColumn::Integer(c) => c.lemma_wf(),
        }
    }

    /// An empty column of domain `kind`.
    pub fn new(kind: TypeKind) -> (r: TableColumn)
        ensures
            r.wf(),
            r.kind() == kind,
            r.key_count() == 0,
            r.ids() == Seq::<KeyId>::empty(),
    {
        match kind {
            TypeKind::Varchar => TableColumn::Varchar(Column::new()),
            TypeKind::Integer => TableColumn::Integer(Column::new()),
        }
    }

    /// The number of distinct keys.
    pub fn num_keys(&self) -> (r: KeyId)
        requires
            self.wf(),
        ensures
            r == self.key_count(),
    {
        match self {
            TableColumn::Varchar(column) => column.num_keys(),
            TableColumn::Integer(column) => column.num_keys(),
        }
    }

    /// The number of rows.
    pub fn num_rows(&self) -> (r: RowId)
        requires
            self.wf(),
        ensures
            r == self.ids().len(),
    {
        match self {
            TableColumn::Varchar(column) => column.num_rows(),
            TableColumn::Integer(column) => column.num_rows(),
        }
    }

    /// Appends a row holding `key`. Null is always taken; any other value
    /// only if it is of the column's domain. On a mismatch nothing changes
    /// and the result is `None`.
    pub fn append(&mut self, key: &Value) -> (r: Option<KeyId>)
        requires
            old(self).wf(),
        ensures
            final(self).wf(),
            r is Some <==> domain_accepts(old(self).kind(), key@),
            r is None ==> *final(self) == *old(self),
            r matches Some(id) ==> {
                &&& final(self).kind() == old(self).kind()
                &&& final(self).ids() == old(self).ids().push(id)
                &&& final(self).values() == old(self).values().push(key@)
                &&& final(self).key_count() >= old(self).key_count()
                &&& forall|i: int|
                    0 <= i < old(self).key_count() ==> #[trigger] final(self).key_value(i)
                        == old(self).key_value(i)
            },
    {
        proof {
            old(self).lemma_wf();
        }
        let r = match self {
            TableColumn::Varchar(column) => match key {
                Value::Varchar(k) => Some(column.append(k.clone())),
                Value::Null(_) => Some(column.append_null()),
                _ => None,
            },
            TableColumn::Integer(column) => match key {
                Value::Integer(k) => Some(column.append(*k)),
                Value::Null(_) => Some(column.append_null()),
                _ => None,
            },
        };
        proof {
            self.lemma_wf();
            if r is Some {
                assert forall|i: int| 0 <= i < old(self).key_count() implies #[trigger] self.key_value(i)
                    == old(self).key_value(i) by {
                }
                assert(self.values() =~= old(self).values().push(key@));
            }
        }
        r
    }

    /// Removes the last row and returns its id; `None` when there is no row.
    pub fn pop(&mut self) -> (r: Option<KeyId>)
        requires
            old(self).wf(),
        ensures
            final(self).wf(),
            final(self).kind() == old(self).kind(),
            final(self).key_count() == old(self).key_count(),
            forall|i: int| #[trigger] final(self).key_value(i) == old(self).key_value(i),
            old(self).ids().len() == 0 ==> r is None && final(self).ids() == old(self).ids(),
            old(self).ids().len() > 0 ==> r == Some(old(self).ids().last()) && final(self).ids()
                == old(self).ids().drop_last(),
    {
        match self {
            TableColumn::Varchar(column) => column.pop(),
            TableColumn::Integer(column) => column.pop(),
        }
    }

    /// The id of `key`; `None` if no row holds it, which is always the case
    /// for null and for a value of another domain.
    pub fn id_of(&self, key: &Value) -> (r: Option<KeyId>)
        requires
            self.wf(),
        ensures
            r matches Some(id) ==> id < self.key_count() && self.key_value(id as int) == key@,
            r is None <==> forall|id: int|
                0 <= id < self.key_count() ==> #[trigger] self.key_value(id) != key@,
    {
        proof {
            self.lemma_wf();
        }
        let r = match (self, key) {
            (TableColumn::Varchar(column), Value::Varchar(k)) => column.id_of(k),
            (TableColumn::Integer(column), Value::Integer(k)) => column.id_of(k),
            _ => None,
        };
        proof {
            if r is None {
                assert forall|id: int| 0 <= id < self.key_count() implies #[trigger] self.key_value(id)
                    != key@ by {
                    match (self, key) {
                        (TableColumn::Varchar(c), Value::Varchar(k)) => {
                            assert(!c.keys().contains(k@));
                        },
                        (TableColumn::Integer(c), Value::Integer(k)) => {
                            assert(!c.keys().contains(*k));
                        },
                        _ => {},
                    }
                }
            }
        }
        r
    }

    /// A bitmap over the ids, set where the key lies in `[range.start,
    /// range.end)`; `None` unless both bounds are of the column's domain.
    pub fn range(&self, range: Range<&Value>) -> (r: Option<BitMap>)
        requires
            self.wf(),
        ensures
            r is Some <==> in_domain(self.kind(), range.start@) && in_domain(self.kind(), range.end@),
            r matches Some(b) ==> bits_of(b) == Seq::new(
                self.key_count(),
                |id: int|
                    !value_lt(self.key_value(id), range.start@) && value_lt(
                        self.key_value(id),
                        range.end@,
                    ),
            ),
    {
        let r = match (self, range.start, range.end) {
            (TableColumn::Varchar(column), Value::Varchar(start), Value::Varchar(end)) => {
                Some(column.range_into_bits(Some(start), Some(end)))
            },
            (TableColumn::Integer(column), Value::Integer(start), Value::Integer(end)) => {
                Some(column.range_into_bits(Some(start), Some(end)))
            },
            _ => None,
        };
        proof {
            if r is Some {
                assert(bits_of(r->0) =~= Seq::new(
                    self.key_count(),
                    |id: int|
                        !value_lt(self.key_value(id), range.start@) && value_lt(
                            self.key_value(id),
                            range.end@,
                        ),
                ));
            }
        }
        r
    }

    /// A bitmap over the ids, set where the key is at least `key`; `None`
    /// unless `key` is of the column's domain.
    pub fn range_from(&self, key: &Value) -> (r: Option<BitMap>)
        requires
            self.wf(),
        ensures
            r is Some <==> in_domain(self.kind(), key@),
            r matches Some(b) ==> bits_of(b) == Seq::new(
                self.key_count(),
                |id: int| !value_lt(self.key_value(id), key@),
            ),
    {
        let r = match (self, key) {
            (TableColumn::Varchar(column), Value::Varchar(k)) => Some(column.range_into_bits(Some(k), None)),
            (TableColumn::Integer(column), Value::Integer(k)) => Some(column.range_into_bits(Some(k), None)),
            _ => None,
        };
        proof {
            if r is Some {
                assert(bits_of(r->0) =~= Seq::new(
                    self.key_count(),
                    |id: int| !value_lt(self.key_value(id), key@),
                ));
            }
        }
        r
    }

    /// A bitmap over the ids, set where the key is below `key`; `None`
    /// unless `key` is of the column's domain.
    pub fn range_to(&self, key: &Value) -> (r: Option<BitMap>)
        requires
            self.wf(),
        ensures
            r is Some <==> in_domain(self.kind(), key@),
            r matches Some(b) ==> bits_of(b) == Seq::new(
                self.key_count(),
                |id: int| value_lt(self.key_value(id), key@),
            ),
    {
        let r = match (self, key) {
            (TableColumn::Varchar(column), Value::Varchar(k)) => Some(column.range_into_bits(None, Some(k))),
            (TableColumn::Integer(column), Value::Integer(k)) => Some(column.range_into_bits(None, Some(k))),
            _ => None,
        };
        proof {
            if r is Some {
                assert(bits_of(r->0) =~= Seq::new(
                    self.key_count(),
                    |id: int| value_lt(self.key_value(id), key@),
                ));
            }
        }
        r
    }

    /// The value of id `key_id`; null for an id that no key has.
    pub fn key_of(&self, key_id: KeyId) -> (r: Value)
        requires
            self.wf(),
        ensures
            r@ == self.key_value(key_id as int),
    {
        if key_id >= self.num_keys() {
            return Value::Null(NULL);
        }
        match self {
            TableColumn::Varchar(column) => Value::Varchar(column.key_of(key_id).clone()),
            TableColumn::Integer(column) => Value::Integer(*column.key_of(key_id)),
        }
    }

    /// The id of row `row_id`.
    pub fn id_at(&self, row_id: RowId) -> (r: KeyId)
        requires
            self.wf(),
            row_id < self.ids().len(),
        ensures
            r == self.ids()[row_id as int],
    {
        match self {
            TableColumn::Varchar(column) => column.id_at(row_id),
            TableColumn::Integer(column) => column.id_at(row_id),
        }
    }

    /// The value of row `row_id`; null for a null row.
    pub fn key_at(&self, row_id: RowId) -> (r: Value)
        requires
            self.wf(),
            row_id < self.ids().len(),
        ensures
            r@ == self.values()[row_id as int],
    {
        let id = self.id_at(row_id);
        self.key_of(id)
    }
}

} // verus!
