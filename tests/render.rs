use kawaii::{Attribute, Insertable, LessThan, Relation, Select, Table, TypeKind, Value, NULL};

fn small() -> Table {
    let mut table = Table::create(
        "s",
        &[Attribute::create("id", TypeKind::Integer), Attribute::create("name", TypeKind::Varchar)],
    );
    table
        .insert(&[Value::from(1), Value::from("a")])
        .insert(&[Value::from(-2), Value::from(NULL)]);
    table
}

#[test]
fn render_shows_header_and_rows() {
    let table = small();
    assert_eq!(table.render(), "│id│name│\n│1│a│\n│-2│null│\n");
}

#[test]
fn render_of_views() {
    let table = small();
    assert_eq!(table.select(&["name"]).render(), "│name│\n│a│\n│null│\n");
    assert_eq!(table.less_than("id", 0).render(), "│id│name│\n│-2│null│\n");
}

#[test]
fn render_of_an_empty_relation_is_empty() {
    let table = small();
    assert_eq!(table.less_than("id", -10).render(), "");
    let empty = Table::create("e", &[Attribute::create("x", TypeKind::Integer)]);
    assert_eq!(empty.render(), "");
}
