use kawaii::{
    Agg, Attribute, EqualTo, GroupBy, Insertable, LessThan, Relation, Select, Table, TableColumn,
    Tuple, Tuples, TypeKind, Value, NULL, NULL_KEY_ID,
};

fn create_shohin_table() -> Table {
    let mut table = Table::create(
        "shohin",
        &[
            Attribute::create("shohin_id", TypeKind::Integer),
            Attribute::create("shohin_name", TypeKind::Varchar),
            Attribute::create("kubun_id", TypeKind::Integer),
            Attribute::create("price", TypeKind::Integer),
        ],
    );
    table
        .insert(&[Value::from(1), Value::from("りんご"), Value::from(1), Value::from(300)])
        .insert(&[Value::from(2), Value::from("みかん"), Value::from(1), Value::from(130)])
        .insert(&[Value::from(3), Value::from("キャベツ"), Value::from(2), Value::from(200)])
        .insert(&[Value::from(4), Value::from("さんま"), Value::from(3), Value::from(220)])
        .insert(&[Value::from(5), Value::from("わかめ"), Value::from(NULL), Value::from(250)])
        .insert(&[Value::from(6), Value::from("しいたけ"), Value::from(4), Value::from(180)])
        .insert(&[Value::from(7), Value::from("ドリアン"), Value::from(1), Value::from(NULL)]);
    table
}

fn create_kubun_table() -> Table {
    let mut table = Table::create(
        "kubun",
        &[
            Attribute::create("kubun_id", TypeKind::Integer),
            Attribute::create("kubun_name", TypeKind::Varchar),
        ],
    );
    table
        .insert(&[Value::from(1), Value::from("くだもの")])
        .insert(&[Value::from(2), Value::from("野菜")])
        .insert(&[Value::from(3), Value::from("魚")]);
    table
}

fn sorted(tuples: Option<Tuples>) -> Option<Vec<Tuple>> {
    tuples.map(|t| {
        let mut rows = t.to_vec();
        rows.sort();
        rows
    })
}

#[test]
fn test_table() {
    let shohin1 = create_shohin_table();
    let shohin2 = create_shohin_table();
    assert_eq!(shohin1, shohin2);
    let kubun1 = create_kubun_table();
    let kubun2 = create_kubun_table();
    assert_eq!(kubun1, kubun2);
}

#[test]
fn test_select() {
    let shohin = create_shohin_table();
    let actual = shohin.select(&["shohin_id", "shohin_name"]);
    let mut expected = Table::create(
        "shohin",
        &[
            Attribute::create("shohin_id", TypeKind::Integer),
            Attribute::create("shohin_name", TypeKind::Varchar),
        ],
    );
    expected
        .insert(&[Value::from(1), Value::from("りんご")])
        .insert(&[Value::from(2), Value::from("みかん")])
        .insert(&[Value::from(3), Value::from("キャベツ")])
        .insert(&[Value::from(4), Value::from("さんま")])
        .insert(&[Value::from(5), Value::from("わかめ")])
        .insert(&[Value::from(6), Value::from("しいたけ")])
        .insert(&[Value::from(7), Value::from("ドリアン")]);
    assert_eq!(actual.fetch(0..10), expected.fetch(0..10));
}

#[test]
fn test_less_than() {
    let shohin = create_shohin_table();
    let actual = shohin.less_than("shohin_id", 4);
    let mut expected = Table::create(
        "shohin",
        &[
            Attribute::create("shohin_id", TypeKind::Integer),
            Attribute::create("shohin_name", TypeKind::Varchar),
            Attribute::create("kubun_id", TypeKind::Integer),
            Attribute::create("price", TypeKind::Integer),
        ],
    );
    expected
        .insert(&[Value::from(1), Value::from("りんご"), Value::from(1), Value::from(300)])
        .insert(&[Value::from(2), Value::from("みかん"), Value::from(1), Value::from(130)])
        .insert(&[Value::from(3), Value::from("キャベツ"), Value::from(2), Value::from(200)]);
    assert_eq!(actual.fetch(0..10), expected.fetch(0..10));
}

#[test]
fn test_equal_to() {
    let shohin = create_shohin_table();
    let actual = shohin.equal_to("shohin_id", 4);
    let mut expected = Table::create(
        "shohin",
        &[
            Attribute::create("shohin_id", TypeKind::Integer),
            Attribute::create("shohin_name", TypeKind::Varchar),
            Attribute::create("kubun_id", TypeKind::Integer),
            Attribute::create("price", TypeKind::Integer),
        ],
    );
    expected.insert(&[Value::from(4), Value::from("さんま"), Value::from(3), Value::from(220)]);
    assert_eq!(actual.fetch(0..10), expected.fetch(0..10));
}

#[test]
fn test_group_by() {
    let shohin = create_shohin_table();
    let actual = shohin.group_by(
        &["kubun_id"],
        &[Agg::count("shohin_name"), Agg::average("price")],
    );
    let mut expected = Table::create(
        "shohin",
        &[
            Attribute::create("kubun_id", TypeKind::Integer),
            Attribute::create("count", TypeKind::Integer),
            Attribute::create("average", TypeKind::Integer),
        ],
    );
    expected
        .insert(&[Value::from(NULL), Value::from(1), Value::from(250)])
        .insert(&[Value::from(1), Value::from(3), Value::from(215)])
        .insert(&[Value::from(2), Value::from(1), Value::from(200)])
        .insert(&[Value::from(3), Value::from(1), Value::from(220)])
        .insert(&[Value::from(4), Value::from(1), Value::from(180)]);
    assert_eq!(sorted(actual.fetch(0..10)), sorted(expected.fetch(0..10)));
}

#[test]
fn insert_rejects_mismatch_and_leaves_table_unchanged() {
    let mut table = create_shohin_table();
    let reference = create_shohin_table();
    // the name is new to its dictionary, the price is of the wrong domain
    let bad = [Value::from(8), Value::from("まぐろ"), Value::from(2), Value::from("高い")];
    assert!(table.insert(&bad).is_none());
    assert_eq!(table, reference);
    let short = [Value::from(8), Value::from("まぐろ")];
    assert!(table.insert(&short).is_none());
    assert_eq!(table, reference);
    assert_eq!(table.num_rows(), 7);
}

#[test]
fn insert_accepts_null_in_any_column_and_chains() {
    let mut table = create_kubun_table();
    assert!(table
        .insert(&[Value::from(NULL), Value::from(NULL)])
        .insert(&[Value::from(9), Value::from("肉")])
        .is_some());
    assert_eq!(table.num_rows(), 5);
    assert!(table.insert(&[Value::from("x"), Value::from(1)]).insert(&[Value::from(1), Value::from("y")]).is_none());
    assert_eq!(table.num_rows(), 5);
    let rows = table.fetch(3..5).unwrap();
    assert_eq!(rows.len(), 2);
    assert_eq!(rows[0].to_vec(), vec![Value::from(NULL), Value::from(NULL)]);
    assert_eq!(rows[1].to_vec(), vec![Value::from(9), Value::from("肉")]);
}

#[test]
fn insert_takes_plain_integers() {
    let mut table = Table::create(
        "pairs",
        &[Attribute::create("a", TypeKind::Integer), Attribute::create("b", TypeKind::Integer)],
    );
    assert!(table.insert(&[3, 4]).is_some());
    assert!(table.insert(&[5]).is_none());
    let rows = table.fetch(0..1).unwrap();
    assert_eq!(rows[0].to_vec(), vec![Value::from(3), Value::from(4)]);
}

#[test]
fn fetch_clips_and_reports_nothing_fetched() {
    let shohin = create_shohin_table();
    assert_eq!(shohin.fetch(7..10), None);
    assert_eq!(shohin.fetch(3..3), None);
    assert_eq!(shohin.fetch(5..2), None);
    let rows = shohin.fetch(5..100).unwrap();
    assert_eq!(rows.len(), 2);
    assert_eq!(
        rows[1].to_vec(),
        vec![Value::from(7), Value::from("ドリアン"), Value::from(1), Value::from(NULL)]
    );
}

#[test]
fn fetch_spans_several_windows() {
    let mut table = Table::create("n", &[Attribute::create("v", TypeKind::Integer)]);
    for i in 0..200 {
        assert!(table.insert(&[Value::from(i % 7)]).is_some());
    }
    let rows = table.fetch(10..150).unwrap();
    assert_eq!(rows.len(), 140);
    for (k, row) in rows.iter().enumerate() {
        assert_eq!(row.to_vec(), vec![Value::from(((k + 10) % 7) as i32)]);
    }
    let small = table.less_than("v", 2);
    assert_eq!(small.num_rows(), 58);
    let rows = small.fetch(0..200).unwrap();
    assert!(rows.iter().all(|r| r[0] == Value::from(0) || r[0] == Value::from(1)));
}

#[test]
fn table_reports_schema() {
    let shohin = create_shohin_table();
    assert_eq!(shohin.num_columns(), 4);
    assert_eq!(shohin.definition().name(), "shohin");
    assert_eq!(shohin.definition().name_to_id("price"), Some(3));
    assert_eq!(shohin.definition().name_to_id("missing"), None);
    assert_eq!(shohin.definition().attribute(1).kind(), TypeKind::Varchar);
    let price = shohin.column_at(3);
    assert_eq!(price.num_rows(), 7);
    assert_eq!(price.id_at(6), NULL_KEY_ID);
    assert_eq!(price.key_at(6), Value::from(NULL));
    assert_eq!(price.key_at(1), Value::from(130));
    assert_eq!(price.key_of(NULL_KEY_ID), Value::from(NULL));
    assert_eq!(price.key_of(6), Value::from(NULL));
}

#[test]
fn table_column_checks_domains() {
    let mut column = TableColumn::new(TypeKind::Varchar);
    assert_eq!(column.append(&Value::from("a")), Some(0));
    assert_eq!(column.append(&Value::from(1)), None);
    assert_eq!(column.append(&Value::from(NULL)), Some(NULL_KEY_ID));
    assert_eq!(column.append(&Value::from("c")), Some(1));
    assert_eq!(column.num_rows(), 3);
    assert_eq!(column.num_keys(), 2);
    assert_eq!(column.id_of(&Value::from("c")), Some(1));
    assert_eq!(column.id_of(&Value::from(1)), None);
    assert_eq!(column.id_of(&Value::from(NULL)), None);
    assert!(column.range_to(&Value::from(3)).is_none());
    assert!(column.range_from(&Value::from(NULL)).is_none());
    assert!(column.range(&Value::from("a")..&Value::from(2)).is_none());
    let bits = column.range(&Value::from("b")..&Value::from("d")).unwrap();
    assert_eq!((bits.get(0), bits.get(1)), (Some(false), Some(true)));
    let bits = column.range_from(&Value::from("b")).unwrap();
    assert_eq!((bits.get(0), bits.get(1)), (Some(false), Some(true)));
    let bits = column.range_to(&Value::from("b")).unwrap();
    assert_eq!((bits.get(0), bits.get(1)), (Some(true), Some(false)));
    assert_eq!(column.pop(), Some(1));
    assert_eq!(column.num_rows(), 2);
    assert_eq!(column.key_at(1), Value::from(NULL));
}
