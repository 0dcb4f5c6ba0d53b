//! Read-only views over a borrowed relation: projection and filtering.

use crate::bitmap::{bitmap_get, bits_of, BitMap};
use crate::column::RowId;
use crate::dictionary::KeyId;
use crate::relation::{layout_ok, relation_rows, Relation, SCAN_STEP};
use crate::schema::{position_of, Definition};
use crate::table_column::{value_lt, TableColumn};
use crate::value::{AsValue, TypeKind, Value, ValueView};
use vstd::prelude::*;

verus! {

/// The positions that `names` resolve to, in order; unknown names are left
/// out.
pub open spec fn resolve_names(attrs: Seq<(Seq<char>, TypeKind)>, names: Seq<Seq<char>>) -> Seq<usize>
    decreases names.len(),
{
    if names.len() == 0 {
        Seq::empty()
    } else {
        let prev = resolve_names(attrs, names.drop_last());
        match position_of(attrs, names.last()) {
            Some(c) => prev.push(c as usize),
            None => prev,
        }
    }
}

/// The views of a list of names.
pub open spec fn names_view(names: Seq<&str>) -> Seq<Seq<char>> {
    names.map_values(|s: &str| s@)
}

/// A projection: the columns of a borrowed relation at chosen positions.
pub struct SelectedRelation<'a, R: Relation> {
    definition: Definition,
    relation: &'a R,
    col_ids: Vec<usize>,
}

impl<'a, R: Relation> SelectedRelation<'a, R> {
    /// The source positions of the columns.
    pub closed spec fn positions(&self) -> Seq<usize> {
        self.col_ids@
    }
}

impl<'a, R: Relation> Relation for SelectedRelation<'a, R> {
    closed spec fn row_ids(&self) -> Seq<RowId> {
        self.relation.row_ids()
    }

    closed spec fn columns(&self) -> Seq<TableColumn> {
        self.col_ids@.map_values(|c: usize| self.relation.columns()[c as int])
    }

    closed spec fn schema(&self) -> Definition {
        self.definition
    }

    closed spec fn inv(&self) -> bool {
        &&& self.relation.inv()
        &&& forall|i: int| 0 <= i < self.col_ids@.len() ==> #[trigger] self.col_ids@[i] < self.relation.columns().len()
        &&& self.definition.attrs() == self.col_ids@.map_values(
            |c: usize| self.relation.schema().attrs()[c as int],
        )
    }

    proof fn lemma_inv(&self) {
        self.relation.lemma_inv();
        let cols = self.columns();
        let rc = self.relation.columns();
        assert forall|i: int, c: int|
            0 <= i < self.row_ids().len() && 0 <= c < cols.len() implies #[trigger] self.row_ids()[i] < (
        #[trigger] cols[c]).ids().len() by {
            assert(cols[c] == rc[self.col_ids@[c] as int]);
        }
        assert forall|c: int| 0 <= c < cols.len() implies (#[trigger] cols[c]).wf() && cols[c].kind()
            == self.schema().attrs()[c].1 by {
            assert(cols[c] == rc[self.col_ids@[c] as int]);
        }
    }

    fn num_rows(&self) -> (r: RowId) {
        self.relation.num_rows()
    }

    fn num_columns(&self) -> (r: usize) {
        self.col_ids.len()
    }

    fn definition(&self) -> (r: &Definition) {
        &self.definition
    }

    fn column_at(&self, col_id: usize) -> (r: &TableColumn) {
        self.relation.column_at(self.col_ids[col_id])
    }

    fn row_id_at(&self, row: RowId) -> (r: RowId) {
        self.relation.row_id_at(row)
    }
}

/// Projection of a relation onto named columns.
pub trait Select: Relation {
    /// A view of the columns named in `col_names`, in that order; unknown
    /// names are left out. Rows are those of this relation.
    fn select<'a>(&'a self, col_names: &[&str]) -> (r: SelectedRelation<'a, Self>)
        requires
            self.inv(),
        ensures
            r.inv(),
            r.positions() == resolve_names(self.schema().attrs(), names_view(col_names@)),
            r.row_ids() == self.row_ids(),
            r.columns() == r.positions().map_values(|c: usize| self.columns()[c as int]),
            r.schema().name_view() == self.schema().name_view(),
            r.schema().attrs() == r.positions().map_values(|c: usize| self.schema().attrs()[c as int]),
    ;
}

/// The positions of the columns named in `col_names`, in order; unknown
/// names are left out.
pub(crate) fn resolve_columns<R: Relation>(rel: &R, col_names: &[&str]) -> (r: Vec<usize>)
    requires
        rel.inv(),
    ensures
        r@ == resolve_names(rel.schema().attrs(), names_view(col_names@)),
        forall|j: int| 0 <= j < r@.len() ==> #[trigger] r@[j] < rel.columns().len(),
{
    proof {
        rel.lemma_inv();
    }
    let ghost attrs = rel.schema().attrs();
    let mut col_ids: Vec<usize> = Vec::new();
    let mut i: usize = 0;
    while i < col_names.len()
        invariant
            rel.inv(),
            attrs == rel.schema().attrs(),
            attrs.len() == rel.columns().len(),
            i <= col_names@.len(),
            col_ids@ == resolve_names(attrs, names_view(col_names@.take(i as int))),
            forall|j: int| 0 <= j < col_ids@.len() ==> #[trigger] col_ids@[j] < attrs.len(),
        decreases col_names@.len() - i,
    {
        let found = rel.definition().name_to_id(col_names[i]);
        assert(names_view(col_names@.take(i + 1)).drop_last() =~= names_view(col_names@.take(i as int)));
        assert(names_view(col_names@.take(i + 1)).last() == col_names@[i as int]@);
        if let Some(col_id) = found {
            col_ids.push(col_id);
        }
        i += 1;
    }
    assert(col_names@.take(i as int) =~= col_names@);
    col_ids
}

impl<T: Relation> Select for T {
    fn select<'a>(&'a self, col_names: &[&str]) -> (r: SelectedRelation<'a, T>) {
        let col_ids = resolve_columns(self, col_names);
        let definition = self.definition().select(col_ids.as_slice());
        proof {
            self.lemma_inv();
            lemma_selected_all_valid(self.schema().attrs(), col_ids@);
        }
        SelectedRelation { definition: definition, relation: self, col_ids: col_ids }
    }
}

proof fn lemma_selected_all_valid<A>(attrs: Seq<A>, ids: Seq<usize>)
    requires
        forall|j: int| 0 <= j < ids.len() ==> #[trigger] ids[j] < attrs.len(),
    ensures
        crate::schema::selected_attributes(attrs, ids) == ids.map_values(|c: usize| attrs[c as int]),
    decreases ids.len(),
{
    if ids.len() > 0 {
        lemma_selected_all_valid(attrs, ids.drop_last());
        assert(crate::schema::selected_attributes(attrs, ids) =~= ids.map_values(|c: usize| attrs[c as int]));
    } else {
        assert(crate::schema::selected_attributes(attrs, ids) =~= ids.map_values(|c: usize| attrs[c as int]));
    }
}

/// A projection shows, for every row, the source row's values at the chosen
/// positions, in the chosen order.
pub proof fn lemma_projection_rows<R: Relation>(source: &R, view: &SelectedRelation<R>)
    requires
        source.inv(),
        view.row_ids() == source.row_ids(),
        forall|j: int| 0 <= j < view.positions().len() ==> #[trigger] view.positions()[j] < source.columns().len(),
        view.columns() == view.positions().map_values(|c: usize| source.columns()[c as int]),
    ensures
        relation_rows(view).len() == relation_rows(source).len(),
        forall|i: int|
            0 <= i < relation_rows(view).len() ==> #[trigger] relation_rows(view)[i]
                == view.positions().map_values(|c: usize| relation_rows(source)[i][c as int]),
{
    assert forall|i: int|
        0 <= i < relation_rows(view).len() implies #[trigger] relation_rows(view)[i]
        == view.positions().map_values(|c: usize| relation_rows(source)[i][c as int]) by {
        assert(relation_rows(view)[i] =~= view.positions().map_values(
            |c: usize| relation_rows(source)[i][c as int],
        ));
    }
}

/// Whether a row holding `v` passes a probe for `key`: below it, or equal
/// to it. A null never passes.
pub open spec fn probe_matches(v: ValueView, key: ValueView, less: bool) -> bool {
    if less {
        value_lt(v, key)
    } else {
        !(v is Null) && v == key
    }
}

/// The ids among `ids` whose row in `column` passes the probe, in order.
pub open spec fn matching_rows(ids: Seq<RowId>, column: TableColumn, key: ValueView, less: bool) -> Seq<RowId>
    decreases ids.len(),
{
    if ids.len() == 0 {
        Seq::empty()
    } else {
        let prev = matching_rows(ids.drop_last(), column, key, less);
        if probe_matches(column.values()[ids.last() as int], key, less) {
            prev.push(ids.last())
        } else {
            prev
        }
    }
}

/// The rows a filter on the column named `name` keeps.
pub open spec fn filtered_rows(
    attrs: Seq<(Seq<char>, TypeKind)>,
    columns: Seq<TableColumn>,
    ids: Seq<RowId>,
    name: Seq<char>,
    key: ValueView,
    less: bool,
) -> Seq<RowId> {
    match position_of(attrs, name) {
        Some(c) => matching_rows(ids, columns[c], key, less),
        None => Seq::empty(),
    }
}

/// A row whose probed column is null is never kept, whatever the key.
pub proof fn lemma_null_never_matches(ids: Seq<RowId>, column: TableColumn, key: ValueView, less: bool, i: int)
    requires
        0 <= i < matching_rows(ids, column, key, less).len(),
    ensures
        !(column.values()[matching_rows(ids, column, key, less)[i] as int] is Null),
        ids.contains(matching_rows(ids, column, key, less)[i]),
    decreases ids.len(),
{
    let prev = matching_rows(ids.drop_last(), column, key, less);
    if i < prev.len() {
        lemma_null_never_matches(ids.drop_last(), column, key, less, i);
        let p = prev[i];
        let j = choose|j: int| 0 <= j < ids.drop_last().len() && ids.drop_last()[j] == p;
        assert(ids[j] == p);
    } else {
        assert(ids[ids.len() - 1] == ids.last());
    }
}

/// A filter on a column never keeps a row whose value there is null, for
/// any key: a kept row exists only when the name resolves, and its value in
/// that column is not null.
pub proof fn lemma_filter_excludes_nulls(
    attrs: Seq<(Seq<char>, TypeKind)>,
    columns: Seq<TableColumn>,
    ids: Seq<RowId>,
    name: Seq<char>,
    key: ValueView,
    less: bool,
    i: int,
)
    requires
        0 <= i < filtered_rows(attrs, columns, ids, name, key, less).len(),
    ensures
        position_of(attrs, name) is Some,
        !(columns[position_of(attrs, name)->0].values()[filtered_rows(
            attrs,
            columns,
            ids,
            name,
            key,
            less,
        )[i] as int] is Null),
{
    if let Some(c) = position_of(attrs, name) {
        lemma_null_never_matches(ids, columns[c], key, less, i);
    }
}

proof fn lemma_none_match(ids: Seq<RowId>, column: TableColumn, key: ValueView, less: bool)
    requires
        forall|i: int| 0 <= i < ids.len() ==> !probe_matches(column.values()[#[trigger] ids[i] as int], key, less),
    ensures
        matching_rows(ids, column, key, less) == Seq::<RowId>::empty(),
    decreases ids.len(),
{
    if ids.len() > 0 {
        assert(ids.last() == ids[ids.len() - 1]);
        lemma_none_match(ids.drop_last(), column, key, less);
    }
}

/// How a scan tests each row's id.
enum Probe {
    /// Keep ids whose bit is set.
    Below(BitMap),
    /// Keep one id.
    Equal(KeyId),
}

/// Scans every row of `rel` in windows and keeps those whose id in
/// `rel`'s column `col_id` passes the probe.
fn scan_matching<R: Relation>(rel: &R, col_id: usize, key: &Value, less: bool) -> (r: Vec<RowId>)
    requires
        rel.inv(),
        col_id < rel.columns().len(),
    ensures
        r@ == matching_rows(rel.row_ids(), rel.columns()[col_id as int], key@, less),
        forall|i: int, c: int|
            0 <= i < r@.len() && 0 <= c < rel.columns().len() ==> #[trigger] r@[i] < (
            #[trigger] rel.columns()[c]).ids().len(),
{
    proof {
        rel.lemma_inv();
    }
    let column = rel.column_at(col_id);
    proof {
        column.lemma_wf();
    }
    let probe = if less {
        match column.range_to(key) {
            Some(bits) => Probe::Below(bits),
            None => {
                assert forall|i: int| 0 <= i < rel.row_ids().len() implies !probe_matches(
                    column.values()[#[trigger] rel.row_ids()[i] as int],
                    key@,
                    less,
                ) by {}
                proof {
                    lemma_none_match(rel.row_ids(), *column, key@, less);
                }
                return Vec::new();
            },
        }
    } else {
        match column.id_of(key) {
            Some(target) => Probe::Equal(target),
            None => {
                assert forall|i: int| 0 <= i < rel.row_ids().len() implies !probe_matches(
                    column.values()[#[trigger] rel.row_ids()[i] as int],
                    key@,
                    less,
                ) by {
                    let p = rel.row_ids()[i];
                    assert(p < column.ids().len());
                    let id = column.ids()[p as int];
                    if id < column.key_count() {
                        assert(column.key_value(id as int) != key@);
                    }
                }
                proof {
                    lemma_none_match(rel.row_ids(), *column, key@, less);
                }
                return Vec::new();
            },
        }
    };
    let n = rel.num_rows();
    let mut valid: Vec<RowId> = Vec::new();
    let mut buffer: Vec<RowId> = Vec::new();
    let mut start: usize = 0;
    while start < n
        invariant
            rel.inv(),
            layout_ok(rel.schema(), rel.row_ids(), rel.columns()),
            col_id < rel.columns().len(),
            *column == rel.columns()[col_id as int],
            column.wf(),
            n == rel.row_ids().len(),
            start <= n,
            less ==> probe is Below && bits_of(probe->Below_0) == Seq::new(
                column.key_count(),
                |id: int| value_lt(column.key_value(id), key@),
            ),
            !less ==> probe is Equal && probe->Equal_0 < column.key_count() && column.key_value(
                probe->Equal_0 as int,
            ) == key@,
            valid@ == matching_rows(rel.row_ids().take(start as int), *column, key@, less),
            forall|i: int, c: int|
                0 <= i < valid@.len() && 0 <= c < rel.columns().len() ==> #[trigger] valid@[i] < (
                #[trigger] rel.columns()[c]).ids().len(),
        decreases n - start,
    {
        let step = if SCAN_STEP < n - start {
            SCAN_STEP
        } else {
            n - start
        };
        let stop = start + step;
        rel.scan_row_ids(start..stop, &mut buffer);
        let mut k: usize = 0;
        while k < buffer.len()
            invariant
                rel.inv(),
                layout_ok(rel.schema(), rel.row_ids(), rel.columns()),
                col_id < rel.columns().len(),
                *column == rel.columns()[col_id as int],
                column.wf(),
                n == rel.row_ids().len(),
                start < stop <= n,
                buffer@ == rel.row_ids().subrange(start as int, stop as int),
                k <= buffer@.len(),
                less ==> probe is Below && bits_of(probe->Below_0) == Seq::new(
                    column.key_count(),
                    |id: int| value_lt(column.key_value(id), key@),
                ),
                !less ==> probe is Equal && probe->Equal_0 < column.key_count() && column.key_value(
                    probe->Equal_0 as int,
                ) == key@,
                valid@ == matching_rows(rel.row_ids().take(start + k), *column, key@, less),
                forall|i: int, c: int|
                    0 <= i < valid@.len() && 0 <= c < rel.columns().len() ==> #[trigger] valid@[i] < (
                    #[trigger] rel.columns()[c]).ids().len(),
            decreases buffer@.len() - k,
        {
            let row_id = buffer[k];
            let ghost pos = start + k;
            assert(row_id == rel.row_ids()[pos]);
            assert(row_id < rel.columns()[col_id as int].ids().len());
            proof {
                column.lemma_wf();
            }
            let id = column.id_at(row_id);
            let keep = match &probe {
                Probe::Below(bits) => matches!(bitmap_get(bits, id), Some(true)),
                Probe::Equal(target) => id == *target,
            };
            assert(keep == probe_matches(column.values()[row_id as int], key@, less));
            let ghost before = valid@;
            if keep {
                valid.push(row_id);
                assert forall|i: int, c: int|
                    0 <= i < valid@.len() && 0 <= c < rel.columns().len() implies #[trigger] valid@[i]
                    < (#[trigger] rel.columns()[c]).ids().len() by {
                    if i < before.len() {
                        assert(valid@[i] == before[i]);
                    } else {
                        assert(rel.row_ids()[pos] < rel.columns()[c].ids().len());
                    }
                }
            }
            assert(rel.row_ids().take(pos + 1).drop_last() =~= rel.row_ids().take(pos));
            assert(rel.row_ids().take(pos + 1).last() == row_id);
            k += 1;
        }
        start = stop;
    }
    assert(rel.row_ids().take(n as int) =~= rel.row_ids());
    valid
}

/// A filter: the rows of a borrowed relation that passed a predicate.
pub struct FilteredRelation<'a, R: Relation> {
    relation: &'a R,
    valid_row_ids: Vec<RowId>,
}

impl<'a, R: Relation> Relation for FilteredRelation<'a, R> {
    closed spec fn row_ids(&self) -> Seq<RowId> {
        self.valid_row_ids@
    }

    closed spec fn columns(&self) -> Seq<TableColumn> {
        self.relation.columns()
    }

    closed spec fn schema(&self) -> Definition {
        self.relation.schema()
    }

    closed spec fn inv(&self) -> bool {
        &&& self.relation.inv()
        &&& forall|i: int, c: int|
            0 <= i < self.valid_row_ids@.len() && 0 <= c < self.relation.columns().len()
                ==> #[trigger] self.valid_row_ids@[i] < (#[trigger] self.relation.columns()[c]).ids().len()
    }

    proof fn lemma_inv(&self) {
        self.relation.lemma_inv();
    }

    fn num_rows(&self) -> (r: RowId) {
        self.valid_row_ids.len()
    }

    fn num_columns(&self) -> (r: usize) {
        self.relation.num_columns()
    }

    fn definition(&self) -> (r: &Definition) {
        self.relation.definition()
    }

    fn column_at(&self, col_id: usize) -> (r: &TableColumn) {
        self.relation.column_at(col_id)
    }

    fn row_id_at(&self, row: RowId) -> (r: RowId) {
        self.valid_row_ids[row]
    }
}

/// The rows of `rel` whose column named `col_name` passes the probe; none
/// when no column has that name.
fn filter_by<'a, R: Relation>(rel: &'a R, col_name: &str, key: &Value, less: bool) -> (r: FilteredRelation<'a, R>)
    requires
        rel.inv(),
    ensures
        r.inv(),
        r.columns() == rel.columns(),
        r.schema() == rel.schema(),
        r.row_ids() == filtered_rows(
            rel.schema().attrs(),
            rel.columns(),
            rel.row_ids(),
            col_name@,
            key@,
            less,
        ),
{
    proof {
        rel.lemma_inv();
    }
    let valid_row_ids = match rel.definition().name_to_id(col_name) {
        Some(col_id) => scan_matching(rel, col_id, key, less),
        None => Vec::new(),
    };
    proof {
        assert(valid_row_ids@ =~= filtered_rows(
            rel.schema().attrs(),
            rel.columns(),
            rel.row_ids(),
            col_name@,
            key@,
            less,
        ));
    }
    FilteredRelation { relation: rel, valid_row_ids: valid_row_ids }
}

/// Filtering by `column < key`.
pub trait LessThan: Relation {
    /// The rows whose value in the column named `col_name` is below `key`.
    /// Null values, values of another domain and unknown names match
    /// nothing.
    fn less_than<'a, K: AsValue>(&'a self, col_name: &str, key: K) -> (r: FilteredRelation<'a, Self>)
        requires
            self.inv(),
        ensures
            r.inv(),
            r.columns() == self.columns(),
            r.schema() == self.schema(),
            r.row_ids() == filtered_rows(
                self.schema().attrs(),
                self.columns(),
                self.row_ids(),
                col_name@,
                key.value_view(),
                true,
            ),
    ;
}

impl<T: Relation> LessThan for T {
    fn less_than<'a, K: AsValue>(&'a self, col_name: &str, key: K) -> (r: FilteredRelation<'a, T>) {
        let v = key.as_datum_ref();
        filter_by(self, col_name, &v, true)
    }
}

/// Filtering by `column == key`.
pub trait EqualTo: Relation {
    /// The rows whose value in the column named `col_name` equals `key`.
    /// Null never matches, nor does a key absent from the column or an
    /// unknown name.
    fn equal_to<'a, K: AsValue>(&'a self, col_name: &str, key: K) -> (r: FilteredRelation<'a, Self>)
        requires
            self.inv(),
        ensures
            r.inv(),
            r.columns() == self.columns(),
            r.schema() == self.schema(),
            r.row_ids() == filtered_rows(
                self.schema().attrs(),
                self.columns(),
                self.row_ids(),
                col_name@,
                key.value_view(),
                false,
            ),
    ;
}

impl<T: Relation> EqualTo for T {
    fn equal_to<'a, K: AsValue>(&'a self, col_name: &str, key: K) -> (r: FilteredRelation<'a, T>) {
        let v = key.as_datum_ref();
        filter_by(self, col_name, &v, false)
    }
}

} // verus!
