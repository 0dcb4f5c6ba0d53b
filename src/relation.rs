//! The relation contract shared by tables and views, and the owning table.

use crate::column::RowId;
use crate::schema::{Attribute, Definition};
use crate::table_column::TableColumn;
use crate::value::{domain_accepts, value_text, AsValue, Value, ValueView};
use vstd::string::StringExecFns;
use core::ops::Range;
use vstd::prelude::*;

verus! {

/// The number of rows that one window of a scan covers.
pub const SCAN_STEP: usize = 64;

/// One materialised row.
#[derive(PartialEq, Eq, PartialOrd, Ord, Debug, Clone)]
pub struct Tuple {
    values: Vec<Value>,
}

impl View for Tuple {
    type V = Seq<ValueView>;

    closed spec fn view(&self) -> Seq<ValueView> {
        self.values@.map_values(|v: Value| v@)
    }
}

impl Tuple {
    pub fn new() -> (r: Tuple)
        ensures
            r@ == Seq::<ValueView>::empty(),
    {
        let r = Tuple { values: Vec::new() };
        assert(r@ =~= Seq::<ValueView>::empty());
        r
    }

    /// Appends a field.
    pub fn push(&mut self, value: Value)
        ensures
            final(self)@ == old(self)@.push(value@),
    {
        self.values.push(value);
        assert(self@ =~= old(self)@.push(value@));
    }
}

impl core::ops::Deref for Tuple {
    type Target = Vec<Value>;

    fn deref(&self) -> &Vec<Value> {
        &self.values
    }
}

/// A sequence of materialised rows.
#[derive(PartialEq, Eq, PartialOrd, Ord, Debug, Clone)]
pub struct Tuples {
    values: Vec<Tuple>,
}

impl View for Tuples {
    type V = Seq<Seq<ValueView>>;

    closed spec fn view(&self) -> Seq<Seq<ValueView>> {
        self.values@.map_values(|t: Tuple| t@)
    }
}

impl Tuples {
    pub fn new() -> (r: Tuples)
        ensures
            r@ == Seq::<Seq<ValueView>>::empty(),
    {
        let r = Tuples { values: Vec::new() };
        assert(r@ =~= Seq::<Seq<ValueView>>::empty());
        r
    }

    /// Appends a row.
    pub fn push(&mut self, tuple: Tuple)
        ensures
            final(self)@ == old(self)@.push(tuple@),
    {
        self.values.push(tuple);
        assert(self@ =~= old(self)@.push(tuple@));
    }
}

impl core::ops::Deref for Tuples {
    type Target = Vec<Tuple>;

    fn deref(&self) -> &Vec<Tuple> {
        &self.values
    }
}

/// The values of physical row `row_id` across `columns`.
pub open spec fn row_values(columns: Seq<TableColumn>, row_id: RowId) -> Seq<ValueView> {
    Seq::new(columns.len(), |c: int| columns[c].values()[row_id as int])
}

/// The physical ids of the logical rows `[start, end)`, clipped to `ids`.
pub open spec fn window(ids: Seq<RowId>, start: RowId, end: RowId) -> Seq<RowId> {
    let stop = if end < ids.len() {
        end as int
    } else {
        ids.len() as int
    };
    if start < stop {
        ids.subrange(start as int, stop)
    } else {
        Seq::empty()
    }
}

/// Whether columns, schema and row ids fit together: one well-formed column
/// per attribute, of the attribute's domain, and every row id a row of every
/// column.
pub open spec fn layout_ok(schema: Definition, row_ids: Seq<RowId>, columns: Seq<TableColumn>) -> bool {
    &&& schema.attrs().len() == columns.len()
    &&& forall|c: int|
        0 <= c < columns.len() ==> (#[trigger] columns[c]).wf() && columns[c].kind()
            == schema.attrs()[c].1
    &&& forall|i: int, c: int|
        0 <= i < row_ids.len() && 0 <= c < columns.len() ==> #[trigger] row_ids[i] < (
        #[trigger] columns[c]).ids().len()
}

/// One rendered line: each cell after a `│`, then a closing `│` and a line
/// break.
pub open spec fn line_text(cells: Seq<Seq<char>>) -> Seq<char> {
    cells_text(cells) + seq!['│', '\n']
}

/// Each cell after a `│`.
pub open spec fn cells_text(cells: Seq<Seq<char>>) -> Seq<char>
    decreases cells.len(),
{
    if cells.len() == 0 {
        Seq::empty()
    } else {
        cells_text(cells.drop_last()) + seq!['│'] + cells.last()
    }
}

/// One line per row.
pub open spec fn rows_text(rows: Seq<Seq<ValueView>>) -> Seq<char>
    decreases rows.len(),
{
    if rows.len() == 0 {
        Seq::empty()
    } else {
        rows_text(rows.drop_last()) + line_text(rows.last().map_values(|v: ValueView| value_text(v)))
    }
}

/// The text of a relation with attribute names `names` and rows `rows`: a
/// header line of the names, then one line per row; nothing at all when
/// there is no row.
pub open spec fn relation_text(names: Seq<Seq<char>>, rows: Seq<Seq<ValueView>>) -> Seq<char> {
    if rows.len() == 0 {
        Seq::empty()
    } else {
        line_text(names) + rows_text(rows)
    }
}

/// Anything with rows and columns: a table, or a view over a relation.
pub trait Relation: Sized {
    /// The physical row id of each logical row.
    spec fn row_ids(&self) -> Seq<RowId>;

    /// The columns, by logical position.
    spec fn columns(&self) -> Seq<TableColumn>;

    /// The schema.
    spec fn schema(&self) -> Definition;

    /// The relation's own invariant.
    spec fn inv(&self) -> bool;

    proof fn lemma_inv(&self)
        requires
            self.inv(),
        ensures
            layout_ok(self.schema(), self.row_ids(), self.columns()),
    ;

    fn num_rows(&self) -> (r: RowId)
        requires
            self.inv(),
        ensures
            r == self.row_ids().len(),
    ;

    fn num_columns(&self) -> (r: usize)
        requires
            self.inv(),
        ensures
            r == self.columns().len(),
    ;

    fn definition(&self) -> (r: &Definition)
        requires
            self.inv(),
        ensures
            *r == self.schema(),
    ;

    fn column_at(&self, col_id: usize) -> (r: &TableColumn)
        requires
            self.inv(),
            col_id < self.columns().len(),
        ensures
            *r == self.columns()[col_id as int],
    ;

    /// The physical row id of logical row `row`.
    fn row_id_at(&self, row: RowId) -> (r: RowId)
        requires
            self.inv(),
            row < self.row_ids().len(),
        ensures
            r == self.row_ids()[row as int],
    ;

    /// Fills `dest` with the physical ids of the logical rows in `range`,
    /// clipped to the number of rows.
    fn scan_row_ids(&self, range: Range<RowId>, dest: &mut Vec<RowId>)
        requires
            self.inv(),
        ensures
            final(dest)@ == window(self.row_ids(), range.start, range.end),
    {
        dest.clear();
        let n = self.num_rows();
        let end = if range.end < n {
            range.end
        } else {
            n
        };
        if range.start >= end {
            return;
        }
        let mut row = range.start;
        while row < end
            invariant
                self.inv(),
                n == self.row_ids().len(),
                end <= n,
                range.start <= row <= end,
                dest@ == self.row_ids().subrange(range.start as int, row as int),
            decreases end - row,
        {
            dest.push(self.row_id_at(row));
            row += 1;
            assert(dest@ =~= self.row_ids().subrange(range.start as int, row as int));
        }
        assert(dest@ =~= window(self.row_ids(), range.start, range.end));
    }

    /// The rows of `range`, clipped to the number of rows; `None` when
    /// nothing is left.
    fn fetch(&self, range: Range<RowId>) -> (r: Option<Tuples>)
        requires
            self.inv(),
        ensures
            r is None <==> window(self.row_ids(), range.start, range.end).len() == 0,
            r matches Some(t) ==> t@ == window(self.row_ids(), range.start, range.end).map_values(
                |p: RowId| row_values(self.columns(), p),
            ),
    {
        let n = self.num_rows();
        let end = if range.end < n {
            range.end
        } else {
            n
        };
        if range.start >= end {
            return None;
        }
        let ghost want = window(self.row_ids(), range.start, range.end).map_values(
            |p: RowId| row_values(self.columns(), p),
        );
        proof {
            self.lemma_inv();
        }
        let n_cols = self.num_columns();
        let mut tuples = Tuples::new();
        let mut start = range.start;
        let mut buffer: Vec<RowId> = Vec::new();
        while start < end
            invariant
                self.inv(),
                layout_ok(self.schema(), self.row_ids(), self.columns()),
                n == self.row_ids().len(),
                n_cols == self.columns().len(),
                range.start <= start <= end <= n,
                end == (if range.end < n {
                    range.end
                } else {
                    n
                }),
                want == window(self.row_ids(), range.start, range.end).map_values(
                    |p: RowId| row_values(self.columns(), p),
                ),
                tuples@ == want.subrange(0, start - range.start),
            decreases end - start,
        {
            let step = if SCAN_STEP < end - start {
                SCAN_STEP
            } else {
                end - start
            };
            let stop = start + step;
            self.scan_row_ids(start..stop, &mut buffer);
            let mut k: usize = 0;
            while k < buffer.len()
                invariant
                    self.inv(),
                    layout_ok(self.schema(), self.row_ids(), self.columns()),
                    n_cols == self.columns().len(),
                    range.start <= start < stop <= end <= n,
                    n == self.row_ids().len(),
                    buffer@ == self.row_ids().subrange(start as int, stop as int),
                    k <= buffer@.len(),
                    want == window(self.row_ids(), range.start, range.end).map_values(
                        |p: RowId| row_values(self.columns(), p),
                    ),
                    end == (if range.end < n {
                        range.end
                    } else {
                        n
                    }),
                    tuples@ == want.subrange(0, start + k - range.start),
                decreases buffer@.len() - k,
            {
                let row_id = buffer[k];
                assert(row_id == self.row_ids()[start + k]);
                let mut tuple = Tuple::new();
                let mut col_id: usize = 0;
                while col_id < n_cols
                    invariant
                        self.inv(),
                        layout_ok(self.schema(), self.row_ids(), self.columns()),
                        n_cols == self.columns().len(),
                        col_id <= n_cols,
                        0 <= start + k < n,
                        n == self.row_ids().len(),
                        row_id == self.row_ids()[start + k],
                        tuple@ == row_values(self.columns(), row_id).subrange(0, col_id as int),
                    decreases n_cols - col_id,
                {
                    let column = self.column_at(col_id);
                    assert(row_id < self.columns()[col_id as int].ids().len());
                    tuple.push(column.key_at(row_id));
                    col_id += 1;
                    assert(tuple@ =~= row_values(self.columns(), row_id).subrange(0, col_id as int));
                }
                assert(tuple@ =~= row_values(self.columns(), row_id));
                tuples.push(tuple);
                k += 1;
                assert(tuples@ =~= want.subrange(0, start + k - range.start));
            }
            start = stop;
        }
        assert(tuples@ =~= want);
        Some(tuples)
    }

    /// The relation as text: a header line of the attribute names, then one
    /// line per row, each field after a `│`.
    fn render(&self) -> (r: String)
        requires
            self.inv(),
        ensures
            r@ == relation_text(
                self.schema().attrs().map_values(|a: (Seq<char>, crate::value::TypeKind)| a.0),
                self.row_ids().map_values(|p: RowId| row_values(self.columns(), p)),
            ),
    {
        let ghost names = self.schema().attrs().map_values(|a: (Seq<char>, crate::value::TypeKind)| a.0);
        let ghost rows = self.row_ids().map_values(|p: RowId| row_values(self.columns(), p));
        let mut out = String::new();
        let n = self.num_rows();
        let fetched = self.fetch(0..n);
        let tuples = match fetched {
            Some(t) => t,
            None => {
                assert(window(self.row_ids(), 0, n) =~= self.row_ids());
                assert(rows =~= Seq::<Seq<ValueView>>::empty());
                return out;
            },
        };
        assert(window(self.row_ids(), 0, n) =~= self.row_ids());
        proof {
            self.lemma_inv();
        }
        let definition = self.definition();
        let n_cols = definition.num_columns();
        proof {
            reveal_strlit("│");
            reveal_strlit("│\n");
        }
        let mut c: usize = 0;
        while c < n_cols
            invariant
                n_cols == names.len(),
                *definition == self.schema(),
                names == self.schema().attrs().map_values(|a: (Seq<char>, crate::value::TypeKind)| a.0),
                c <= n_cols,
                out@ == cells_text(names.take(c as int)),
            decreases n_cols - c,
        {
            proof {
                reveal_strlit("│");
            }
            out.append("│");
            out.append(definition.attribute(c).name().as_str());
            assert(names.take(c + 1).drop_last() =~= names.take(c as int));
            assert(out@ =~= cells_text(names.take(c + 1)));
            c += 1;
        }
        assert(names.take(n_cols as int) =~= names);
        out.append("│\n");
        let ghost header = line_text(names);
        assert(out@ == header);
        let mut i: usize = 0;
        while i < tuples.values.len()
            invariant
                tuples@ == rows,
                rows.len() > 0,
                i <= rows.len(),
                header == line_text(names),
                out@ == header + rows_text(rows.take(i as int)),
            decreases rows.len() - i,
        {
            let tuple = &tuples.values[i];
            let ghost cells = rows[i as int].map_values(|v: ValueView| value_text(v));
            assert(tuple@ == rows[i as int]);
            let ghost before = out@;
            let mut k: usize = 0;
            while k < tuple.values.len()
                invariant
                    i < rows.len(),
                    tuple@ == rows[i as int],
                    cells == rows[i as int].map_values(|v: ValueView| value_text(v)),
                    k <= cells.len(),
                    out@ == before + cells_text(cells.take(k as int)),
                decreases cells.len() - k,
            {
                proof {
                    reveal_strlit("│");
                }
                out.append("│");
                let text = tuple.values[k].to_string();
                out.append(text.as_str());
                assert(cells.take(k + 1).drop_last() =~= cells.take(k as int));
                assert(out@ =~= before + cells_text(cells.take(k + 1)));
                k += 1;
            }
            assert(cells.take(k as int) =~= cells);
            proof {
                reveal_strlit("│\n");
            }
            out.append("│\n");
            assert(rows.take(i + 1).drop_last() =~= rows.take(i as int));
            assert(out@ =~= header + rows_text(rows.take(i + 1)));
            i += 1;
        }
        assert(rows.take(i as int) =~= rows);
        out
    }
}

/// The rows of a relation, in order.
pub open spec fn relation_rows<R: Relation>(r: &R) -> Seq<Seq<ValueView>> {
    r.row_ids().map_values(|p: RowId| row_values(r.columns(), p))
}

/// The row ids `0, 1, ..., n - 1`.
pub open spec fn identity_ids(n: nat) -> Seq<RowId> {
    Seq::new(n, |i: int| i as RowId)
}

/// The owning, mutable relation: one typed column per attribute.
#[derive(PartialEq, Eq, Debug)]
pub struct Table {
    num_rows: RowId,
    definition: Definition,
    columns: Vec<TableColumn>,
}

impl Table {
    /// The values a tuple stands for.
    pub open spec fn tuple_values<T: AsValue>(tuple: Seq<T>) -> Seq<ValueView> {
        tuple.map_values(|t: T| t.value_view())
    }

    /// Whether `row` can be inserted: one value per column, each null or of
    /// its column's domain, and room for one more row.
    pub open spec fn accepts_row(&self, row: Seq<ValueView>) -> bool {
        &&& row.len() == self.columns().len()
        &&& self.row_ids().len() < usize::MAX
        &&& forall|c: int| 0 <= c < row.len() ==> domain_accepts((#[trigger] self.columns()[c]).kind(), row[c])
    }

    /// One column per attribute, of its domain, each with one row per row
    /// of the table.
    pub closed spec fn wf(&self) -> bool {
        &&& layout_ok(self.definition, identity_ids(self.num_rows as nat), self.columns@)
        &&& forall|c: int| 0 <= c < self.columns@.len() ==> (#[trigger] self.columns@[c]).ids().len() == self.num_rows
    }

    /// An empty table with schema `definition`.
    pub fn new(definition: Definition) -> (r: Table)
        ensures
            r.wf(),
            r.schema() == definition,
            r.row_ids() == Seq::<RowId>::empty(),
            r.columns().len() == definition.attrs().len(),
            forall|c: int| 0 <= c < r.columns().len() ==> (#[trigger] r.columns()[c]).kind() == definition.attrs()[c].1,
            forall|c: int| 0 <= c < r.columns().len() ==> (#[trigger] r.columns()[c]).key_count() == 0,
    {
        let mut columns: Vec<TableColumn> = Vec::new();
        let mut i: usize = 0;
        while i < definition.num_columns()
            invariant
                i <= definition.attrs().len(),
                columns@.len() == i,
                forall|c: int|
                    0 <= c < i ==> (#[trigger] columns@[c]).wf() && columns@[c].kind()
                        == definition.attrs()[c].1 && columns@[c].ids().len() == 0
                        && columns@[c].key_count() == 0,
            decreases definition.attrs().len() - i,
        {
            columns.push(TableColumn::new(definition.attribute(i).kind()));
            i += 1;
        }
        let r = Table { num_rows: 0, definition: definition, columns: columns };
        assert(r.row_ids() =~= Seq::<RowId>::empty());
        r
    }

    /// An empty table named `name` with the given attributes.
    pub fn create(name: &str, attributes: &[Attribute]) -> (r: Table)
        ensures
            r.wf(),
            r.schema().name_view() == name@,
            r.schema().attrs() == attributes@.map_values(|a: Attribute| a@),
            r.row_ids() == Seq::<RowId>::empty(),
            r.columns().len() == attributes@.len(),
            forall|c: int| 0 <= c < r.columns().len() ==> (#[trigger] r.columns()[c]).kind() == attributes@[c]@.1,
    {
        Table::new(Definition::create(name, attributes))
    }

    /// Appends one row. The row must have one value per column, each null or
    /// of its column's domain; otherwise nothing changes and the result is
    /// `None`. On success the table itself is handed back, so that inserts
    /// can be chained.
    pub fn insert<T: AsValue>(&mut self, tuple: &[T]) -> (r: Option<&mut Table>)
        requires
            old(self).wf(),
        ensures
            r is Some <==> old(self).accepts_row(Table::tuple_values(tuple@)),
            r is None ==> *final(self) == *old(self),
            r matches Some(t) ==> {
                &&& t.wf()
                &&& t.schema() == old(self).schema()
                &&& t.columns().len() == old(self).columns().len()
                &&& forall|c: int|
                    0 <= c < t.columns().len() ==> (#[trigger] t.columns()[c]).kind()
                        == old(self).columns()[c].kind()
                &&& relation_rows(t) == relation_rows(old(self)).push(
                    Table::tuple_values(tuple@),
                )
                &&& forall|c: int|
                    0 <= c < t.columns().len() ==> (#[trigger] t.columns()[c]).key_count()
                        >= old(self).columns()[c].key_count()
                &&& *final(self) == *final(t)
            },
    {
        let n_cols = self.columns.len();
        if n_cols != tuple.len() || self.num_rows == usize::MAX {
            return None;
        }
        // convert and check every field before touching any column
        let mut values: Vec<Value> = Vec::new();
        let mut i: usize = 0;
        while i < n_cols
            invariant
                self.wf(),
                *self == *old(self),
                self.num_rows < usize::MAX,
                n_cols == self.columns@.len() == tuple@.len(),
                i <= n_cols,
                values@.len() == i,
                forall|c: int| 0 <= c < i ==> (#[trigger] values@[c])@ == tuple@[c].value_view(),
                forall|c: int|
                    0 <= c < i ==> domain_accepts(
                        (#[trigger] self.columns@[c]).kind(),
                        tuple@[c].value_view(),
                    ),
            decreases n_cols - i,
        {
            let v = tuple[i].as_datum_ref();
            let accepted = match (&self.columns[i], &v) {
                (_, Value::Null(_)) => true,
                (TableColumn::Varchar(_), Value::Varchar(_)) => true,
                (TableColumn::Integer(_), Value::Integer(_)) => true,
                _ => false,
            };
            if !accepted {
                return None;
            }
            values.push(v);
            i += 1;
        }
        let ghost old_rows = relation_rows(self);
        let ghost row = Table::tuple_values(tuple@);
        let mut col_id: usize = 0;
        while col_id < n_cols
            invariant
                n_cols == self.columns@.len() == values@.len() == tuple@.len(),
                col_id <= n_cols,
                self.num_rows == old(self).num_rows,
                old(self).columns@.len() == n_cols,
                self.num_rows < usize::MAX,
                self.definition == old(self).definition,
                old(self).wf(),
                forall|c: int| 0 <= c < n_cols ==> (#[trigger] values@[c])@ == tuple@[c].value_view(),
                forall|c: int|
                    0 <= c < n_cols ==> domain_accepts(
                        (#[trigger] old(self).columns@[c]).kind(),
                        tuple@[c].value_view(),
                    ),
                forall|c: int|
                    col_id <= c < n_cols ==> #[trigger] self.columns@[c] == old(self).columns@[c],
                forall|c: int|
                    0 <= c < col_id ==> {
                        &&& (#[trigger] self.columns@[c]).wf()
                        &&& self.columns@[c].kind() == old(self).columns@[c].kind()
                        &&& self.columns@[c].ids().len() == old(self).num_rows + 1
                        &&& self.columns@[c].values() == old(self).columns@[c].values().push(
                            tuple@[c].value_view(),
                        )
                        &&& self.columns@[c].key_count() >= old(self).columns@[c].key_count()
                    },
            decreases n_cols - col_id,
        {
            proof {
                old(self).columns@[col_id as int].lemma_wf();
            }
            let appended = self.columns[col_id].append(&values[col_id]);
            assert(appended is Some);
            col_id += 1;
        }
        self.num_rows = self.num_rows + 1;
        proof {
            let ids = identity_ids(self.num_rows as nat);
            assert forall|i: int, c: int|
                0 <= i < self.num_rows && 0 <= c < n_cols implies #[trigger] ids[i] < (
            #[trigger] self.columns@[c]).ids().len() by {}
            assert forall|i: int| 0 <= i < self.num_rows implies #[trigger] relation_rows(self)[i] == (
            if i < old(self).num_rows {
                old_rows[i]
            } else {
                row
            }) by {
                assert(relation_rows(self)[i] =~= (if i < old(self).num_rows {
                    old_rows[i]
                } else {
                    row
                }));
            }
            assert(relation_rows(self) =~= old_rows.push(row));
        }
        Some(self)
    }
}

impl Relation for Table {
    closed spec fn row_ids(&self) -> Seq<RowId> {
        identity_ids(self.num_rows as nat)
    }

    closed spec fn columns(&self) -> Seq<TableColumn> {
        self.columns@
    }

    closed spec fn schema(&self) -> Definition {
        self.definition
    }

    open spec fn inv(&self) -> bool {
        self.wf()
    }

    proof fn lemma_inv(&self) {
    }

    fn num_rows(&self) -> (r: RowId) {
        self.num_rows
    }

    fn num_columns(&self) -> (r: usize) {
        self.columns.len()
    }

    fn definition(&self) -> (r: &Definition) {
        &self.definition
    }

    fn column_at(&self, col_id: usize) -> (r: &TableColumn) {
        &self.columns[col_id]
    }

    fn row_id_at(&self, row: RowId) -> (r: RowId) {
        row
    }
}

/// Chaining of inserts: an insert into `None` does nothing.
pub trait Insertable<'a>: Sized {
    /// The table an insert goes to, if any.
    spec fn target(&self) -> Option<Table>;

    fn insert<T: AsValue>(self, tuple: &[T]) -> (r: Option<&'a mut Table>)
        requires
            self.target() matches Some(t) ==> t.wf(),
        ensures
            r is Some <==> (self.target() matches Some(t) && t.accepts_row(Table::tuple_values(tuple@))),
            r matches Some(t) ==> {
                &&& t.wf()
                &&& t.schema() == self.target()->0.schema()
                &&& relation_rows(t) == relation_rows(&self.target()->0).push(Table::tuple_values(tuple@))
            },
    ;
}

impl<'a> Insertable<'a> for Option<&'a mut Table> {
    open spec fn target(&self) -> Option<Table> {
        match self {
            Some(t) => Some(**t),
            None => None,
        }
    }

    fn insert<T: AsValue>(self, tuple: &[T]) -> (r: Option<&'a mut Table>) {
        match self {
            Some(table) => table.insert(tuple),
            None => None,
        }
    }
}

} // verus!
