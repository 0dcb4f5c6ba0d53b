use kawaii::{
    Agg, Attribute, EqualTo, GroupBy, Insertable, LessThan, Relation, Select, Table, Tuple,
    TypeKind, Value, NULL,
};

fn three_columns() -> Table {
    let mut table = Table::create(
        "t",
        &[
            Attribute::create("a", TypeKind::Integer),
            Attribute::create("b", TypeKind::Varchar),
            Attribute::create("c", TypeKind::Integer),
        ],
    );
    table
        .insert(&[Value::from(1), Value::from("x"), Value::from(10)])
        .insert(&[Value::from(2), Value::from(NULL), Value::from(20)])
        .insert(&[Value::from(NULL), Value::from("y"), Value::from(NULL)])
        .insert(&[Value::from(1), Value::from("x"), Value::from(-7)]);
    table
}

fn rows_of(tuples: Vec<Tuple>) -> Vec<Vec<Value>> {
    tuples.into_iter().map(|t| t.to_vec()).collect()
}

#[test]
fn projection_keeps_positional_subtuples() {
    let table = three_columns();
    let all = rows_of(table.fetch(0..4).unwrap().to_vec());
    let view = table.select(&["a", "c"]);
    assert_eq!(view.num_columns(), 2);
    assert_eq!(view.definition().num_columns(), 2);
    let projected = rows_of(view.fetch(0..4).unwrap().to_vec());
    for (row, full) in projected.iter().zip(all.iter()) {
        assert_eq!(row, &vec![full[0].clone(), full[2].clone()]);
    }
    let reordered = rows_of(table.select(&["c", "nope", "b"]).fetch(0..4).unwrap().to_vec());
    assert_eq!(reordered[1], vec![Value::from(20), Value::from(NULL)]);
}

#[test]
fn projection_of_a_filter_keeps_the_filtered_rows() {
    let table = three_columns();
    let filtered = table.equal_to("a", 1);
    let view = filtered.select(&["c"]);
    let rows = rows_of(view.fetch(0..10).unwrap().to_vec());
    assert_eq!(rows, vec![vec![Value::from(10)], vec![Value::from(-7)]]);
}

#[test]
fn filter_of_a_filter_narrows_further() {
    let table = three_columns();
    let first = table.less_than("c", 15);
    let second = first.equal_to("b", "x");
    let rows = rows_of(second.fetch(0..10).unwrap().to_vec());
    assert_eq!(rows.len(), 2);
    assert_eq!(rows[1], vec![Value::from(1), Value::from("x"), Value::from(-7)]);
}

#[test]
fn nulls_never_match_a_probe() {
    let table = three_columns();
    for key in [i32::MIN, -7, 0, 15, i32::MAX] {
        let below = rows_of(table.less_than("a", key).fetch(0..10).map(|t| t.to_vec()).unwrap_or_default());
        assert!(below.iter().all(|r| r[0] != Value::from(NULL)));
        let equal = rows_of(table.equal_to("c", key).fetch(0..10).map(|t| t.to_vec()).unwrap_or_default());
        assert!(equal.iter().all(|r| r[2] != Value::from(NULL)));
    }
    assert_eq!(table.equal_to("a", NULL).num_rows(), 0);
    assert_eq!(table.less_than("a", NULL).num_rows(), 0);
    assert_eq!(table.less_than("a", i32::MAX).num_rows(), 3);
}

#[test]
fn unknown_names_and_other_domains_match_nothing() {
    let table = three_columns();
    assert_eq!(table.less_than("missing", 5).num_rows(), 0);
    assert_eq!(table.equal_to("missing", 5).num_rows(), 0);
    assert_eq!(table.less_than("a", "text").num_rows(), 0);
    assert_eq!(table.equal_to("b", 1).num_rows(), 0);
    assert_eq!(table.equal_to("a", 99).num_rows(), 0);
    assert_eq!(table.less_than("missing", 5).fetch(0..10), None);
    assert_eq!(table.select(&["missing"]).num_columns(), 0);
}

#[test]
fn text_probes_use_string_order() {
    let table = three_columns();
    assert_eq!(table.less_than("b", "y").num_rows(), 2);
    assert_eq!(table.less_than("b", "x").num_rows(), 0);
    assert_eq!(table.equal_to("b", "y").num_rows(), 1);
}

#[test]
fn group_counts_add_up_to_the_non_null_values() {
    let table = three_columns();
    let grouped = table.group_by(&["a"], &[Agg::count("b"), Agg::count("c")]);
    let rows = rows_of(grouped.fetch(0..10).unwrap().to_vec());
    assert_eq!(rows.len(), 3);
    let total_b: i32 = rows.iter().map(|r| match r[1] { Value::Integer(n) => n, _ => 0 }).sum();
    let total_c: i32 = rows.iter().map(|r| match r[2] { Value::Integer(n) => n, _ => 0 }).sum();
    assert_eq!(total_b, 3);
    assert_eq!(total_c, 3);
    // groups come in order of first appearance; nulls form one group
    assert_eq!(rows[0], vec![Value::from(1), Value::from(2), Value::from(2)]);
    assert_eq!(rows[1], vec![Value::from(2), Value::from(0), Value::from(1)]);
    assert_eq!(rows[2], vec![Value::from(NULL), Value::from(1), Value::from(0)]);
}

#[test]
fn null_rows_form_one_group() {
    let mut table = Table::create("g", &[Attribute::create("k", TypeKind::Varchar), Attribute::create("v", TypeKind::Integer)]);
    table
        .insert(&[Value::from(NULL), Value::from(1)])
        .insert(&[Value::from("p"), Value::from(2)])
        .insert(&[Value::from(NULL), Value::from(4)]);
    let grouped = table.group_by(&["k"], &[Agg::count("v"), Agg::average("v")]);
    let rows = rows_of(grouped.fetch(0..10).unwrap().to_vec());
    assert_eq!(
        rows,
        vec![
            vec![Value::from(NULL), Value::from(2), Value::from(2)],
            vec![Value::from("p"), Value::from(1), Value::from(2)],
        ]
    );
    assert_eq!(grouped.definition().attribute(0).name(), "k");
    assert_eq!(grouped.definition().attribute(1).name(), "count");
    assert_eq!(grouped.definition().attribute(2).name(), "average");
    assert_eq!(grouped.definition().name(), "g");
}

#[test]
fn average_truncates_toward_zero_and_is_zero_on_nothing() {
    let mut table = Table::create("avg", &[Attribute::create("k", TypeKind::Integer), Attribute::create("v", TypeKind::Integer)]);
    table
        .insert(&[Value::from(1), Value::from(-3)])
        .insert(&[Value::from(1), Value::from(-4)])
        .insert(&[Value::from(2), Value::from(NULL)])
        .insert(&[Value::from(3), Value::from(7)])
        .insert(&[Value::from(3), Value::from(8)])
        .insert(&[Value::from(4), Value::from(i32::MAX)])
        .insert(&[Value::from(4), Value::from(i32::MAX)]);
    let grouped = table.group_by(&["k"], &[Agg::average("v")]);
    let rows = rows_of(grouped.fetch(0..10).unwrap().to_vec());
    assert_eq!(rows[0], vec![Value::from(1), Value::from(-3)]);
    assert_eq!(rows[1], vec![Value::from(2), Value::from(0)]);
    assert_eq!(rows[2], vec![Value::from(3), Value::from(7)]);
    assert_eq!(rows[3], vec![Value::from(4), Value::from(i32::MAX)]);
}

#[test]
fn group_by_without_groups_or_with_unknown_names() {
    let table = three_columns();
    let whole = table.group_by(&[], &[Agg::count("a"), Agg::average("c"), Agg::count("missing")]);
    assert_eq!(whole.num_columns(), 2);
    let rows = rows_of(whole.fetch(0..10).unwrap().to_vec());
    assert_eq!(rows, vec![vec![Value::from(3), Value::from(7)]]);
    let empty = Table::create("e", &[Attribute::create("a", TypeKind::Integer)]);
    let none = empty.group_by(&["a"], &[Agg::count("a")]);
    assert_eq!(none.num_rows(), 0);
    assert_eq!(none.fetch(0..10), None);
}

#[test]
fn group_by_works_over_views() {
    let table = three_columns();
    let filtered = table.less_than("c", 100);
    let grouped = filtered.group_by(&["b"], &[Agg::count("a")]);
    let rows = rows_of(grouped.fetch(0..10).unwrap().to_vec());
    assert_eq!(
        rows,
        vec![
            vec![Value::from("x"), Value::from(2)],
            vec![Value::from(NULL), Value::from(1)],
        ]
    );
}

#[test]
fn scenario_from_the_shop_table() {
    let mut shohin = Table::create(
        "shohin",
        &[
            Attribute::create("id", TypeKind::Integer),
            Attribute::create("name", TypeKind::Varchar),
            Attribute::create("category", TypeKind::Integer),
            Attribute::create("price", TypeKind::Integer),
        ],
    );
    shohin
        .insert(&[Value::from(1), Value::from("A"), Value::from(1), Value::from(300)])
        .insert(&[Value::from(2), Value::from("B"), Value::from(1), Value::from(130)])
        .insert(&[Value::from(3), Value::from("C"), Value::from(2), Value::from(200)])
        .insert(&[Value::from(4), Value::from("D"), Value::from(3), Value::from(220)])
        .insert(&[Value::from(5), Value::from("E"), Value::from(NULL), Value::from(250)])
        .insert(&[Value::from(6), Value::from("F"), Value::from(4), Value::from(180)])
        .insert(&[Value::from(7), Value::from("G"), Value::from(1), Value::from(NULL)]);
    let ids = |r: &kawaii::FilteredRelation<Table>| -> Vec<Value> {
        rows_of(r.fetch(0..10).unwrap().to_vec()).into_iter().map(|row| row[0].clone()).collect()
    };
    assert_eq!(ids(&shohin.less_than("id", 4)), vec![Value::from(1), Value::from(2), Value::from(3)]);
    assert_eq!(ids(&shohin.equal_to("id", 4)), vec![Value::from(4)]);
    let grouped = shohin.group_by(&["category"], &[Agg::count("name"), Agg::average("price")]);
    let mut rows = rows_of(grouped.fetch(0..10).unwrap().to_vec());
    rows.sort();
    assert_eq!(
        rows,
        vec![
            vec![Value::from(1), Value::from(3), Value::from(215)],
            vec![Value::from(2), Value::from(1), Value::from(200)],
            vec![Value::from(3), Value::from(1), Value::from(220)],
            vec![Value::from(4), Value::from(1), Value::from(180)],
            vec![Value::from(NULL), Value::from(1), Value::from(250)],
        ]
    );
}

#[test]
fn group_by_two_columns() {
    let table = three_columns();
    let grouped = table.group_by(&["a", "b"], &[Agg::count("c")]);
    let rows = rows_of(grouped.fetch(0..10).unwrap().to_vec());
    assert_eq!(
        rows,
        vec![
            vec![Value::from(1), Value::from("x"), Value::from(2)],
            vec![Value::from(2), Value::from(NULL), Value::from(1)],
            vec![Value::from(NULL), Value::from("y"), Value::from(0)],
        ]
    );
}
