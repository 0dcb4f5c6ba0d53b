//! Grouped aggregation: rows are grouped by the tuple of dictionary ids of
//! their group columns, so that grouping needs only integer comparisons.

use crate::aggregate::{aggregate_of, count_non_null, lemma_sum_bounds, Agg, AggFunc};
use crate::column::RowId;
use crate::dictionary::{interned, lemma_interned_keys, Dictionary, KeyId};
use crate::relation::{layout_ok, relation_rows, Relation, Table, SCAN_STEP};
use crate::schema::{position_of, Attribute};
use crate::table_column::TableColumn;
use crate::value::{AsValue, TypeKind, Value, ValueView};
use crate::view::{names_view, resolve_columns, resolve_names};
use vstd::prelude::*;

verus! {

/// The group key of each row: the ids of the row in the group columns.
pub open spec fn group_keys(ids: Seq<RowId>, columns: Seq<TableColumn>, gcols: Seq<usize>) -> Seq<Seq<KeyId>> {
    ids.map_values(|p: RowId| gcols.map_values(|c: usize| columns[c as int].ids()[p as int]))
}

/// The value of each row in `column`.
pub open spec fn column_values(ids: Seq<RowId>, column: TableColumn) -> Seq<ValueView> {
    ids.map_values(|p: RowId| column.values()[p as int])
}

/// The values, in order, of the rows whose key is `k`.
pub open spec fn rows_with(keys: Seq<Seq<KeyId>>, vals: Seq<ValueView>, k: Seq<KeyId>) -> Seq<ValueView>
    decreases keys.len(),
{
    if keys.len() == 0 {
        Seq::empty()
    } else {
        let prev = rows_with(keys.drop_last(), vals.drop_last(), k);
        if keys.last() == k {
            prev.push(vals.last())
        } else {
            prev
        }
    }
}

/// The aggregates that resolve to a column: its position and the
/// aggregate's accumulator, in order; unknown names are left out.
pub open spec fn resolve_aggs(attrs: Seq<(Seq<char>, TypeKind)>, aggs: Seq<Agg>) -> Seq<(usize, AggFunc)>
    decreases aggs.len(),
{
    if aggs.len() == 0 {
        Seq::empty()
    } else {
        let prev = resolve_aggs(attrs, aggs.drop_last());
        match position_of(attrs, aggs.last().spec_name()) {
            Some(c) => prev.push((c as usize, aggs.last().spec_func())),
            None => prev,
        }
    }
}

/// The name of the output column of an aggregate.
pub open spec fn aggregate_name(is_count: bool) -> Seq<char> {
    if is_count {
        seq!['c', 'o', 'u', 'n', 't']
    } else {
        seq!['a', 'v', 'e', 'r', 'a', 'g', 'e']
    }
}

/// The output row of the group with key `g`: the decoded group values, then
/// one integer per aggregate.
pub open spec fn group_row(
    columns: Seq<TableColumn>,
    ids: Seq<RowId>,
    gcols: Seq<usize>,
    aggs: Seq<(usize, AggFunc)>,
    g: Seq<KeyId>,
) -> Seq<ValueView> {
    Seq::new(gcols.len(), |t: int| columns[gcols[t] as int].key_value(g[t] as int)) + Seq::new(
        aggs.len(),
        |a: int|
            ValueView::Integer(
                aggregate_of(
                    aggs[a].1.is_count(),
                    rows_with(
                        group_keys(ids, columns, gcols),
                        column_values(ids, columns[aggs[a].0 as int]),
                        g,
                    ),
                ) as i32,
            ),
    )
}

proof fn lemma_rows_with_push(keys: Seq<Seq<KeyId>>, vals: Seq<ValueView>, k: Seq<KeyId>, v: ValueView, g: Seq<KeyId>)
    ensures
        rows_with(keys.push(k), vals.push(v), g) == if k == g {
            rows_with(keys, vals, g).push(v)
        } else {
            rows_with(keys, vals, g)
        },
{
    assert(keys.push(k).drop_last() =~= keys);
    assert(vals.push(v).drop_last() =~= vals);
}

proof fn lemma_rows_with_len(keys: Seq<Seq<KeyId>>, vals: Seq<ValueView>, g: Seq<KeyId>)
    ensures
        rows_with(keys, vals, g).len() <= keys.len(),
        !keys.contains(g) ==> rows_with(keys, vals, g) == Seq::<ValueView>::empty(),
    decreases keys.len(),
{
    if keys.len() > 0 {
        lemma_rows_with_len(keys.drop_last(), vals.drop_last(), g);
        if !keys.contains(g) {
            assert(keys.last() == keys[keys.len() - 1]);
            assert(!keys.drop_last().contains(g)) by {
                if keys.drop_last().contains(g) {
                    let i = choose|i: int| 0 <= i < keys.drop_last().len() && keys.drop_last()[i] == g;
                    assert(keys[i] == g);
                }
            }
        }
    }
}

proof fn lemma_interned_len<V>(ks: Seq<V>)
    ensures
        interned(ks).len() <= ks.len(),
    decreases ks.len(),
{
    if ks.len() > 0 {
        lemma_interned_len(ks.drop_last());
    }
}

/// The column positions and fresh accumulators of the aggregates whose
/// column name resolves.
fn resolve_agg_columns<R: Relation>(rel: &R, agg_params: &[Agg]) -> (r: (Vec<usize>, Vec<AggFunc>))
    requires
        rel.inv(),
        forall|i: int| 0 <= i < agg_params@.len() ==> (#[trigger] agg_params@[i]).fresh(),
    ensures
        r.0@.len() == r.1@.len() == resolve_aggs(rel.schema().attrs(), agg_params@).len(),
        forall|a: int|
            0 <= a < r.0@.len() ==> {
                &&& #[trigger] r.0@[a] == resolve_aggs(rel.schema().attrs(), agg_params@)[a].0
                &&& r.1@[a] == resolve_aggs(rel.schema().attrs(), agg_params@)[a].1
                &&& r.0@[a] < rel.columns().len()
                &&& r.1@[a].holds(Seq::empty())
            },
{
    proof {
        rel.lemma_inv();
    }
    let ghost attrs = rel.schema().attrs();
    let mut cols: Vec<usize> = Vec::new();
    let mut funcs: Vec<AggFunc> = Vec::new();
    let mut i: usize = 0;
    while i < agg_params.len()
        invariant
            rel.inv(),
            attrs == rel.schema().attrs(),
            attrs.len() == rel.columns().len(),
            i <= agg_params@.len(),
            forall|i: int| 0 <= i < agg_params@.len() ==> (#[trigger] agg_params@[i]).fresh(),
            cols@.len() == funcs@.len() == resolve_aggs(attrs, agg_params@.take(i as int)).len(),
            forall|a: int|
                0 <= a < cols@.len() ==> {
                    &&& #[trigger] cols@[a] == resolve_aggs(attrs, agg_params@.take(i as int))[a].0
                    &&& funcs@[a] == resolve_aggs(attrs, agg_params@.take(i as int))[a].1
                    &&& cols@[a] < attrs.len()
                    &&& funcs@[a].holds(Seq::empty())
                },
        decreases agg_params@.len() - i,
    {
        let found = rel.definition().name_to_id(agg_params[i].name());
        assert(agg_params@.take(i + 1).drop_last() =~= agg_params@.take(i as int));
        assert(agg_params@.take(i + 1).last() == agg_params@[i as int]);
        if let Some(col_id) = found {
            cols.push(col_id);
            funcs.push(agg_params[i].func());
        }
        i += 1;
    }
    assert(agg_params@.take(i as int) =~= agg_params@);
    (cols, funcs)
}

/// Grouped aggregation over a relation.
pub trait GroupBy: Relation {
    /// Groups the rows by the columns named in `group_col_names` and
    /// computes each aggregate per group, into a new table: the group
    /// columns, then one integer column per aggregate. Unknown names are
    /// left out. Groups come in order of first appearance.
    fn group_by(&self, group_col_names: &[&str], agg_params: &[Agg]) -> (r: Table)
        requires
            self.inv(),
            self.row_ids().len() < i32::MAX,
            forall|i: int| 0 <= i < agg_params@.len() ==> (#[trigger] agg_params@[i]).fresh(),
        ensures
            r.wf(),
            ({
                let gcols = resolve_names(self.schema().attrs(), names_view(group_col_names@));
                let aggs = resolve_aggs(self.schema().attrs(), agg_params@);
                let keys = group_keys(self.row_ids(), self.columns(), gcols);
                &&& r.schema().name_view() == self.schema().name_view()
                &&& r.schema().attrs() == gcols.map_values(|c: usize| self.schema().attrs()[c as int])
                    + aggs.map_values(
                    |a: (usize, AggFunc)| (aggregate_name(a.1.is_count()), TypeKind::Integer),
                )
                &&& relation_rows(&r) == interned(keys).map_values(
                    |g: Seq<KeyId>| group_row(self.columns(), self.row_ids(), gcols, aggs, g),
                )
            }),
    ;
}

impl<T: Relation> GroupBy for T {
    #[verifier::rlimit(50)]
    fn group_by(&self, group_col_names: &[&str], agg_params: &[Agg]) -> (r: Table) {
        proof {
            self.lemma_inv();
        }
        let ghost attrs = self.schema().attrs();
        let ghost columns = self.columns();
        let ghost ids = self.row_ids();
        let gcols = resolve_columns(self, group_col_names);
        let (acols, funcs) = resolve_agg_columns(self, agg_params);
        let ghost gc = gcols@;
        let ghost aggs = resolve_aggs(attrs, agg_params@);
        let n_g = gcols.len();
        let n_a = acols.len();
        let n = self.num_rows();
        let mut groups: Dictionary<Vec<KeyId>> = Dictionary::new();
        let mut accs: Vec<Vec<AggFunc>> = Vec::new();
        let mut buffer: Vec<RowId> = Vec::new();
        let mut start: usize = 0;
        proof {
            assert(ids.take(0) =~= Seq::<RowId>::empty());
            assert(group_keys(ids.take(0), columns, gc) =~= Seq::<Seq<KeyId>>::empty());
            assert(groups@ =~= interned(group_keys(ids.take(0), columns, gc)));
        }
        while start < n
            invariant
                self.inv(),
                layout_ok(self.schema(), ids, columns),
                attrs == self.schema().attrs(),
                columns == self.columns(),
                ids == self.row_ids(),
                n == ids.len() < i32::MAX,
                start <= n,
                gc == gcols@,
                n_g == gc.len(),
                forall|t: int| 0 <= t < n_g ==> #[trigger] gc[t] < columns.len(),
                n_a == acols@.len() == funcs@.len() == aggs.len(),
                forall|a: int|
                    0 <= a < n_a ==> {
                        &&& #[trigger] acols@[a] == aggs[a].0
                        &&& funcs@[a] == aggs[a].1
                        &&& acols@[a] < columns.len()
                        &&& funcs@[a].holds(Seq::empty())
                    },
                groups.wf() && groups@ == interned(group_keys(ids.take(start as int), columns, gc)),
                accs@.len() == groups@.len(),
                forall|j: int| 0 <= j < accs@.len() ==> (#[trigger] accs@[j])@.len() == n_a,
                forall|j: int, a: int|
                    0 <= j < accs@.len() && 0 <= a < n_a ==> {
                        &&& (#[trigger] accs@[j]@[a]).is_count() == aggs[a].1.is_count()
                        &&& accs@[j]@[a].holds(
                            rows_with(
                                group_keys(ids.take(start as int), columns, gc),
                                column_values(ids.take(start as int), columns[acols@[a] as int]),
                                groups@[j],
                            ),
                        )
                    },
            decreases n - start,
        {
            let step = if SCAN_STEP < n - start {
                SCAN_STEP
            } else {
                n - start
            };
            let stop = start + step;
            self.scan_row_ids(start..stop, &mut buffer);
            let mut k: usize = 0;
            while k < buffer.len()
                invariant
                    self.inv(),
                    layout_ok(self.schema(), ids, columns),
                    attrs == self.schema().attrs(),
                    columns == self.columns(),
                    ids == self.row_ids(),
                    n == ids.len() < i32::MAX,
                    start < stop <= n,
                    buffer@ == ids.subrange(start as int, stop as int),
                    k <= buffer@.len(),
                    gc == gcols@,
                    n_g == gc.len(),
                    forall|t: int| 0 <= t < n_g ==> #[trigger] gc[t] < columns.len(),
                    n_a == acols@.len() == funcs@.len() == aggs.len(),
                    forall|a: int|
                        0 <= a < n_a ==> {
                            &&& #[trigger] acols@[a] == aggs[a].0
                            &&& funcs@[a] == aggs[a].1
                            &&& acols@[a] < columns.len()
                            &&& funcs@[a].holds(Seq::empty())
                        },
                    groups.wf() && groups@ == interned(
                        group_keys(ids.take(start + k), columns, gc),
                    ),
                    accs@.len() == groups@.len(),
                    forall|j: int| 0 <= j < accs@.len() ==> (#[trigger] accs@[j])@.len() == n_a,
                    forall|j: int, a: int|
                        0 <= j < accs@.len() && 0 <= a < n_a ==> {
                            &&& (#[trigger] accs@[j]@[a]).is_count() == aggs[a].1.is_count()
                            &&& accs@[j]@[a].holds(
                                rows_with(
                                    group_keys(ids.take(start + k), columns, gc),
                                    column_values(ids.take(start + k), columns[acols@[a] as int]),
                                    groups@[j],
                                ),
                            )
                        },
                decreases buffer@.len() - k,
            {
                let row_id = buffer[k];
                let ghost pos = start + k;
                let ghost seen = ids.take(pos);
                let ghost keys = group_keys(seen, columns, gc);
                assert(row_id == ids[pos]);
                // the key of this row
                let mut key: Vec<KeyId> = Vec::new();
                let mut t: usize = 0;
                while t < n_g
                    invariant
                        self.inv(),
                        layout_ok(self.schema(), ids, columns),
                        columns == self.columns(),
                        ids == self.row_ids(),
                        gc == gcols@,
                        n_g == gc.len(),
                        forall|t: int| 0 <= t < n_g ==> #[trigger] gc[t] < columns.len(),
                        0 <= pos < ids.len(),
                        row_id == ids[pos],
                        t <= n_g,
                        key@ == gc.take(t as int).map_values(|c: usize| columns[c as int].ids()[row_id as int]),
                    decreases n_g - t,
                {
                    assert(row_id < columns[gc[t as int] as int].ids().len());
                    key.push(self.column_at(gcols[t]).id_at(row_id));
                    t += 1;
                    assert(key@ =~= gc.take(t as int).map_values(|c: usize| columns[c as int].ids()[row_id as int]));
                }
                assert(gc.take(n_g as int) =~= gc);
                let ghost kv = key@;
                let ghost keys2 = group_keys(ids.take(pos + 1), columns, gc);
                assert(keys2 =~= keys.push(kv));
                proof {
                    lemma_interned_keys(keys);
                    assert(keys2.drop_last() =~= keys);
                }
                let n_groups = groups.num_keys();
                let j = groups.insert(key);
                if j == n_groups {
                    let mut fresh: Vec<AggFunc> = Vec::new();
                    let mut a: usize = 0;
                    while a < n_a
                        invariant
                            n_a == funcs@.len(),
                            a <= n_a,
                            fresh@ == funcs@.take(a as int),
                        decreases n_a - a,
                    {
                        fresh.push(funcs[a]);
                        a += 1;
                        assert(fresh@ =~= funcs@.take(a as int));
                    }
                    assert(funcs@.take(n_a as int) =~= funcs@);
                    accs.push(fresh);
                    proof {
                        assert(!keys.contains(kv)) by {
                            if keys.contains(kv) {
                                assert(keys.to_set().contains(kv));
                                assert(interned(keys).to_set().contains(kv));
                            }
                        }
                        assert forall|a: int| 0 <= a < n_a implies accs@[j as int]@[a].holds(
                            rows_with(
                                keys,
                                column_values(seen, columns[acols@[a] as int]),
                                kv,
                            ),
                        ) by {
                            lemma_rows_with_len(keys, column_values(seen, columns[acols@[a] as int]), kv);
                        }
                    }
                }
                proof {
                    lemma_interned_keys(keys2);
                }
                assert(groups@ == interned(keys2));
                assert(groups@[j as int] == kv);
                // feed the row's values to the group's accumulators
                let ghost before = accs@;
                let mut a: usize = 0;
                while a < n_a
                    invariant
                        self.inv(),
                        layout_ok(self.schema(), ids, columns),
                        columns == self.columns(),
                        ids == self.row_ids(),
                        0 <= pos < ids.len() < i32::MAX,
                        row_id == ids[pos],
                        seen == ids.take(pos),
                        keys == group_keys(seen, columns, gc),
                        n_a == acols@.len() == aggs.len(),
                        forall|a: int| 0 <= a < n_a ==> #[trigger] acols@[a] < columns.len(),
                        j < accs@.len(),
                        accs@.len() == before.len(),
                        before[j as int]@.len() == n_a,
                        accs@[j as int]@.len() == n_a,
                        forall|i: int| 0 <= i < accs@.len() && i != j ==> #[trigger] accs@[i] == before[i],
                        forall|b: int| a <= b < n_a ==> #[trigger] accs@[j as int]@[b] == before[j as int]@[b],
                        forall|b: int|
                            0 <= b < n_a ==> (#[trigger] before[j as int]@[b]).holds(
                                rows_with(keys, column_values(seen, columns[acols@[b] as int]), kv),
                            ),
                        forall|b: int|
                            0 <= b < a ==> {
                                &&& (#[trigger] accs@[j as int]@[b]).is_count() == before[j as int]@[b].is_count()
                                &&& accs@[j as int]@[b].holds(
                                    rows_with(keys, column_values(seen, columns[acols@[b] as int]), kv).push(
                                        columns[acols@[b] as int].values()[row_id as int],
                                    ),
                                )
                            },
                        a <= n_a,
                    decreases n_a - a,
                {
                    assert(row_id < columns[acols@[a as int] as int].ids().len());
                    let v = self.column_at(acols[a]).key_at(row_id);
                    proof {
                        let vals = column_values(seen, columns[acols@[a as int] as int]);
                        lemma_rows_with_len(keys, vals, kv);
                        assert(keys.len() == pos);
                    }
                    accs[j][a].calculate(v);
                    a += 1;
                }
                proof {
                    assert forall|i: int, b: int|
                        0 <= i < accs@.len() && 0 <= b < n_a implies {
                        &&& (#[trigger] accs@[i]@[b]).is_count() == aggs[b].1.is_count()
                        &&& accs@[i]@[b].holds(
                            rows_with(
                                keys2,
                                column_values(ids.take(pos + 1), columns[acols@[b] as int]),
                                groups@[i],
                            ),
                        )
                    } by {
                        let vals = column_values(seen, columns[acols@[b] as int]);
                        let v = columns[acols@[b] as int].values()[row_id as int];
                        assert(column_values(ids.take(pos + 1), columns[acols@[b] as int]) =~= vals.push(v));
                        lemma_rows_with_push(keys, vals, kv, v, groups@[i]);
                        if i != j {
                            assert(groups@[i] != kv) by {
                                lemma_interned_keys(keys2);
                            }
                        }
                    }
                }
                k += 1;
            }
            start = stop;
        }
        assert(ids.take(n as int) =~= ids);
        let ghost keys = group_keys(ids, columns, gc);
        proof {
            lemma_interned_len(keys);
            lemma_interned_keys(keys);
        }
        // the result table
        let ghost agg_attrs = aggs.map_values(
            |a: (usize, AggFunc)| (aggregate_name(a.1.is_count()), TypeKind::Integer),
        );
        let ghost all_attrs = gc.map_values(|c: usize| attrs[c as int]) + agg_attrs;
        let mut attributes: Vec<Attribute> = Vec::new();
        let mut t: usize = 0;
        while t < n_g
            invariant
                self.inv(),
                attrs == self.schema().attrs(),
                attrs.len() == columns.len(),
                columns == self.columns(),
                gc == gcols@,
                n_g == gc.len(),
                forall|t: int| 0 <= t < n_g ==> #[trigger] gc[t] < columns.len(),
                all_attrs == gc.map_values(|c: usize| attrs[c as int]) + agg_attrs,
                t <= n_g,
                attributes@.len() == t,
                forall|i: int| 0 <= i < t ==> (#[trigger] attributes@[i])@ == all_attrs[i],
            decreases n_g - t,
        {
            attributes.push(self.definition().attribute(gcols[t]).copy_attribute());
            t += 1;
        }
        let mut a: usize = 0;
        while a < n_a
            invariant
                n_a == funcs@.len() == aggs.len() == acols@.len(),
                forall|a: int|
                    0 <= a < n_a ==> {
                        &&& #[trigger] acols@[a] == aggs[a].0
                        &&& funcs@[a] == aggs[a].1
                    },
                n_g == gc.len(),
                agg_attrs == aggs.map_values(
                    |a: (usize, AggFunc)| (aggregate_name(a.1.is_count()), TypeKind::Integer),
                ),
                all_attrs == gc.map_values(|c: usize| attrs[c as int]) + agg_attrs,
                a <= n_a,
                attributes@.len() == n_g + a,
                forall|i: int| 0 <= i < n_g + a ==> (#[trigger] attributes@[i])@ == all_attrs[i],
            decreases n_a - a,
        {
            assert(acols@[a as int] == aggs[a as int].0);
            let attribute = match funcs[a] {
                AggFunc::Count(_) => {
                    assert(aggs[a as int].1.is_count());
                    let r = Attribute::create("count", TypeKind::Integer);
                    proof {
                        reveal_strlit("count");
                        assert(r@.0 =~= aggregate_name(true));
                    }
                    r
                },
                AggFunc::Average(_) => {
                    assert(!aggs[a as int].1.is_count());
                    let r = Attribute::create("average", TypeKind::Integer);
                    proof {
                        reveal_strlit("average");
                        assert(r@.0 =~= aggregate_name(false));
                    }
                    r
                },
            };
            assert(attribute@ == agg_attrs[a as int]);
            assert(all_attrs[n_g + a] == agg_attrs[a as int]);
            attributes.push(attribute);
            a += 1;
        }
        assert(attributes@.map_values(|a: Attribute| a@) =~= all_attrs);
        let mut table = Table::create(self.definition().name().as_str(), attributes.as_slice());
        let ghost want = interned(keys).map_values(
            |g: Seq<KeyId>| group_row(columns, ids, gc, aggs, g),
        );
        proof {
            assert(relation_rows(&table) =~= want.take(0));
        }
        let mut j: usize = 0;
        while j < groups.num_keys()
            invariant
                self.inv(),
                layout_ok(self.schema(), ids, columns),
                attrs == self.schema().attrs(),
                columns == self.columns(),
                ids == self.row_ids(),
                gc == gcols@,
                n_g == gc.len(),
                forall|t: int| 0 <= t < n_g ==> #[trigger] gc[t] < columns.len(),
                n_a == acols@.len() == aggs.len(),
                forall|a: int|
                    0 <= a < n_a ==> {
                        &&& #[trigger] acols@[a] == aggs[a].0
                        &&& acols@[a] < columns.len()
                    },
                groups.wf() && groups@ == interned(keys),
                groups@.len() <= ids.len() < i32::MAX,
                accs@.len() == groups@.len(),
                forall|j: int| 0 <= j < accs@.len() ==> (#[trigger] accs@[j])@.len() == n_a,
                forall|j: int, a: int|
                    0 <= j < accs@.len() && 0 <= a < n_a ==> {
                        &&& (#[trigger] accs@[j]@[a]).is_count() == aggs[a].1.is_count()
                        &&& accs@[j]@[a].holds(
                            rows_with(keys, column_values(ids, columns[acols@[a] as int]), groups@[j]),
                        )
                    },
                want == interned(keys).map_values(|g: Seq<KeyId>| group_row(columns, ids, gc, aggs, g)),
                j <= groups@.len(),
                table.wf(),
                table.schema().attrs() == attributes@.map_values(|a: Attribute| a@),
                table.schema().name_view() == self.schema().name_view(),
                attributes@.map_values(|a: Attribute| a@) == gc.map_values(|c: usize| attrs[c as int])
                    + aggs.map_values(
                    |a: (usize, AggFunc)| (aggregate_name(a.1.is_count()), TypeKind::Integer),
                ),
                keys == group_keys(ids, columns, gc),
                interned(keys).to_set() == keys.to_set(),
                relation_rows(&table) == want.take(j as int),
            decreases groups@.len() - j,
        {
            let ghost g = groups@[j as int];
            assert(g == interned(keys)[j as int]);
            assert(g.len() == n_g) by {
                assert(interned(keys).to_set().contains(g));
                assert(keys.to_set().contains(g));
                let i = choose|i: int| 0 <= i < keys.len() && keys[i] == g;
            }
            let ghost grow = group_row(columns, ids, gc, aggs, g);
            let group = groups.key_of(j);
            let mut row: Vec<Value> = Vec::new();
            let mut t: usize = 0;
            while t < n_g
                invariant
                    self.inv(),
                    columns == self.columns(),
                    layout_ok(self.schema(), ids, columns),
                    gc == gcols@,
                    n_g == gc.len(),
                    forall|t: int| 0 <= t < n_g ==> #[trigger] gc[t] < columns.len(),
                    j < groups@.len(),
                    g == group@,
                    g.len() == n_g,
                    t <= n_g,
                    row@.len() == t,
                    forall|i: int| 0 <= i < t ==> (#[trigger] row@[i])@ == grow[i],
                    grow == group_row(columns, ids, gc, aggs, g),
                decreases n_g - t,
            {
                row.push(self.column_at(gcols[t]).key_of(group[t]));
                t += 1;
            }
            let mut a: usize = 0;
            while a < n_a
                invariant
                    n_a == acols@.len() == aggs.len(),
                    j < accs@.len(),
                    accs@[j as int]@.len() == n_a,
                    forall|a: int|
                        0 <= a < n_a ==> {
                            &&& (#[trigger] accs@[j as int]@[a]).is_count() == aggs[a].1.is_count()
                            &&& accs@[j as int]@[a].holds(
                                rows_with(keys, column_values(ids, columns[acols@[a] as int]), g),
                            )
                        },
                    forall|a: int| 0 <= a < n_a ==> #[trigger] acols@[a] == aggs[a].0 && acols@[a] < columns.len(),
                    keys.len() == ids.len() < i32::MAX,
                    keys == group_keys(ids, columns, gc),
                    a <= n_a,
                    row@.len() == n_g + a,
                    forall|i: int| 0 <= i < n_g + a ==> (#[trigger] row@[i])@ == grow[i],
                    grow == group_row(columns, ids, gc, aggs, g),
                    n_g == gc.len(),
                decreases n_a - a,
            {
                let ghost vals = rows_with(keys, column_values(ids, columns[acols@[a as int] as int]), g);
                proof {
                    lemma_rows_with_len(keys, column_values(ids, columns[acols@[a as int] as int]), g);
                    lemma_sum_bounds(vals);
                }
                let result = accs[j][a].get_result();
                row.push(Value::Integer(result));
                proof {
                    assert(result as int == aggregate_of(aggs[a as int].1.is_count(), vals));
                    assert(grow[n_g + a] == ValueView::Integer(
                        aggregate_of(aggs[a as int].1.is_count(), vals) as i32,
                    ));
                }
                a += 1;
            }
            proof {
                assert(row@.map_values(|v: Value| v@) =~= grow);
                table.lemma_inv();
                assert forall|c: int| 0 <= c < row@.len() implies crate::value::domain_accepts(
                    (#[trigger] table.columns()[c]).kind(),
                    row@[c].value_view(),
                ) by {
                    if c < n_g {
                        let col = columns[gc[c] as int];
                        col.lemma_wf();
                        assert(col.kind() == attrs[gc[c] as int].1);
                    }
                }
            }
            assert(row@.len() == table.columns().len());
            assert(want.len() == groups@.len());
            assert(relation_rows(&table).len() == j);
            assert(table.row_ids().len() < usize::MAX);
            let inserted = table.insert(row.as_slice());
            assert(inserted is Some);
            proof {
                assert(Table::tuple_values(row@) =~= grow);
                assert(want.take(j + 1) =~= want.take(j as int).push(grow));
            }
            j += 1;
        }
        assert(want.take(j as int) =~= want);
        table
    }
}

/// The sum, over the groups `groups`, of the number of non-null values of
/// each group's rows.
pub open spec fn total_count(groups: Seq<Seq<KeyId>>, keys: Seq<Seq<KeyId>>, vals: Seq<ValueView>) -> int
    decreases groups.len(),
{
    if groups.len() == 0 {
        0
    } else {
        total_count(groups.drop_last(), keys, vals) + count_non_null(
            rows_with(keys, vals, groups.last()),
        )
    }
}

proof fn lemma_total_count_push(
    groups: Seq<Seq<KeyId>>,
    keys: Seq<Seq<KeyId>>,
    vals: Seq<ValueView>,
    k: Seq<KeyId>,
    v: ValueView,
)
    requires
        groups.no_duplicates(),
    ensures
        total_count(groups, keys.push(k), vals.push(v)) == total_count(groups, keys, vals) + if groups.contains(k)
            && !(v is Null) {
            1int
        } else {
            0int
        },
    decreases groups.len(),
{
    if groups.len() > 0 {
        let prev = groups.drop_last();
        assert(prev.no_duplicates());
        lemma_total_count_push(prev, keys, vals, k, v);
        lemma_rows_with_push(keys, vals, k, v, groups.last());
        let r = rows_with(keys, vals, groups.last());
        assert(r.push(v).drop_last() =~= r);
        if groups.contains(k) {
            if groups.last() != k {
                let i = choose|i: int| 0 <= i < groups.len() && groups[i] == k;
                assert(prev[i] == k);
            } else {
                assert(!prev.contains(k)) by {
                    if prev.contains(k) {
                        let i = choose|i: int| 0 <= i < prev.len() && prev[i] == k;
                        assert(groups[i] == groups[groups.len() - 1]);
                    }
                }
            }
        } else {
            assert(!prev.contains(k)) by {
                if prev.contains(k) {
                    let i = choose|i: int| 0 <= i < prev.len() && prev[i] == k;
                    assert(groups[i] == k);
                }
            }
            assert(groups.last() != k) by {
                assert(groups[groups.len() - 1] == groups.last());
            }
        }
    }
}

/// Over all groups, the counts of a column add up to the number of non-null
/// values of that column: every row falls in exactly one group.
pub proof fn lemma_count_total(keys: Seq<Seq<KeyId>>, vals: Seq<ValueView>)
    requires
        keys.len() == vals.len(),
    ensures
        total_count(interned(keys), keys, vals) == count_non_null(vals),
    decreases keys.len(),
{
    if keys.len() > 0 {
        let pk = keys.drop_last();
        let pv = vals.drop_last();
        let k = keys.last();
        let v = vals.last();
        lemma_count_total(pk, pv);
        lemma_interned_keys(pk);
        assert(keys =~= pk.push(k));
        assert(vals =~= pv.push(v));
        lemma_total_count_push(interned(pk), pk, pv, k, v);
        assert(count_non_null(vals) == count_non_null(pv) + if v is Null {
            0int
        } else {
            1int
        });
        if !interned(pk).contains(k) {
            let g = interned(pk).push(k);
            assert(interned(keys) == g);
            assert(g.drop_last() =~= interned(pk));
            assert(g.last() == k);
            assert(!pk.contains(k)) by {
                if pk.contains(k) {
                    assert(pk.to_set().contains(k));
                }
            }
            lemma_rows_with_len(pk, pv, k);
            lemma_rows_with_push(pk, pv, k, v, k);
            let one = Seq::<ValueView>::empty().push(v);
            assert(one.drop_last() =~= Seq::<ValueView>::empty());
            assert(one.last() == v);
            assert(count_non_null(Seq::<ValueView>::empty()) == 0);
            assert(rows_with(keys, vals, k) == one);
            assert(count_non_null(one) == if v is Null {
                0int
            } else {
                1int
            });
            assert(total_count(g, keys, vals) == total_count(interned(pk), keys, vals) + count_non_null(
                one,
            ));
        } else {
            assert(interned(keys) == interned(pk));
        }
    }
}

/// Grouping a relation by any columns, the counts of column `col` over all
/// groups add up to the number of non-null values of that column.
pub proof fn lemma_group_counts_total<R: Relation>(rel: &R, gcols: Seq<usize>, col: int)
    ensures
        total_count(
            interned(group_keys(rel.row_ids(), rel.columns(), gcols)),
            group_keys(rel.row_ids(), rel.columns(), gcols),
            column_values(rel.row_ids(), rel.columns()[col]),
        ) == count_non_null(column_values(rel.row_ids(), rel.columns()[col])),
{
    lemma_count_total(
        group_keys(rel.row_ids(), rel.columns(), gcols),
        column_values(rel.row_ids(), rel.columns()[col]),
    );
}

/// Rows whose group columns are all null share one group key, the all-null
/// one, and that group's output row shows null in every group column.
pub proof fn lemma_null_rows_one_group(
    columns: Seq<TableColumn>,
    ids: Seq<RowId>,
    gcols: Seq<usize>,
    aggs: Seq<(usize, AggFunc)>,
    i: int,
    i2: int,
)
    requires
        0 <= i < ids.len(),
        0 <= i2 < ids.len(),
        forall|t: int| 0 <= t < gcols.len() ==> #[trigger] gcols[t] < columns.len(),
        forall|t: int| 0 <= t < gcols.len() ==> (#[trigger] columns[gcols[t] as int]).wf(),
        forall|t: int|
            0 <= t < gcols.len() ==> ids[i] < (#[trigger] columns[gcols[t] as int]).ids().len()
                && ids[i2] < columns[gcols[t] as int].ids().len(),
        forall|t: int| 0 <= t < gcols.len() ==> (#[trigger] columns[gcols[t] as int]).values()[ids[i] as int] is Null,
        forall|t: int| 0 <= t < gcols.len() ==> (#[trigger] columns[gcols[t] as int]).values()[ids[i2] as int] is Null,
    ensures
        group_keys(ids, columns, gcols)[i] == group_keys(ids, columns, gcols)[i2],
        forall|t: int|
            0 <= t < gcols.len() ==> #[trigger] group_row(columns, ids, gcols, aggs, group_keys(ids, columns, gcols)[i])[t]
                is Null,
{
    let k1 = group_keys(ids, columns, gcols)[i];
    let k2 = group_keys(ids, columns, gcols)[i2];
    assert forall|t: int| 0 <= t < gcols.len() implies #[trigger] k1[t] == crate::column::NULL_KEY_ID && k2[t]
        == crate::column::NULL_KEY_ID by {
        let col = columns[gcols[t] as int];
        col.lemma_wf();
        assert(col.values()[ids[i] as int] == col.key_value(col.ids()[ids[i] as int] as int));
        assert(col.values()[ids[i2] as int] == col.key_value(col.ids()[ids[i2] as int] as int));
    }
    assert(k1 =~= k2);
    assert forall|t: int| 0 <= t < gcols.len() implies #[trigger] group_row(columns, ids, gcols, aggs, k1)[t] is Null by {
        let col = columns[gcols[t] as int];
        col.lemma_wf();
    }
}

} // verus!
