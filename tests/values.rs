use kawaii::{AggFunc, AsValue, Average, Count, Null, Value, NULL};

#[test]
fn values_order_by_variant_then_payload() {
    let mut values = vec![Value::from(NULL), Value::from(3), Value::from("b"), Value::from(-1), Value::from("a")];
    values.sort();
    assert_eq!(
        values,
        vec![Value::from("a"), Value::from("b"), Value::from(-1), Value::from(3), Value::from(NULL)]
    );
    assert_ne!(Value::from(NULL), Value::from(0));
    assert_eq!(NULL, Null);
}

#[test]
fn null_reads_as_null() {
    assert_eq!(NULL.to_string(), "null");
    assert!(Value::from(NULL).is_null());
    assert!(!Value::from("null").is_null());
}

#[test]
fn as_value_converts_each_kind() {
    assert_eq!(5.as_datum_ref(), Value::Integer(5));
    assert_eq!("s".as_datum_ref(), Value::Varchar("s".to_string()));
    assert_eq!(NULL.as_datum_ref(), Value::Null(NULL));
    assert_eq!(Value::from("v").as_datum_ref(), Value::from("v"));
    assert_eq!(Value::from(9).copy_value(), Value::from(9));
}

#[test]
fn accumulators_fold_values() {
    let mut count = Count::new();
    count.calculate(Value::from(1));
    count.calculate(NULL);
    count.calculate("x");
    assert_eq!(count.get_result(), 2);
    let mut average = Average::new();
    assert_eq!(average.get_result(), 0);
    average.calculate(5);
    average.calculate("ignored");
    average.calculate(NULL);
    average.calculate(-10);
    assert_eq!(average.get_result(), -2);
    let mut func = AggFunc::Count(Count::new());
    func.calculate(NULL);
    func.calculate(3);
    assert_eq!(func.get_result(), 1);
    let mut func = AggFunc::Average(Average::new());
    func.calculate(3);
    func.calculate(4);
    assert_eq!(func.get_result(), 3);
}

#[test]
fn values_read_as_text() {
    assert_eq!(Value::from(-5).to_string(), "-5");
    assert_eq!(Value::from(i32::MIN).to_string(), "-2147483648");
    assert_eq!(Value::from(120).to_string(), "120");
    assert_eq!(Value::from("abc").to_string(), "abc");
    assert_eq!(Value::from(NULL).to_string(), "null");
}

#[test]
fn values_convert_from_owned_text() {
    let name = "かわいい".to_string();
    assert_eq!(Value::from(&name), Value::Varchar(name.clone()));
    assert_eq!(Value::from(&name), Value::from("かわいい"));
}
