use kawaii::{Column, Dictionary, NULL_KEY_ID};

#[test]
fn test_dictionary_varchar() {
    let mut dictionary = Dictionary::new();
    assert_eq!(dictionary.insert("Alice".to_string()), 0);
    assert_eq!(dictionary.insert("Bob".to_string()), 1);
    assert_eq!(dictionary.insert("Alice".to_string()), 0);
    assert_eq!(dictionary.num_keys(), 2);
    assert_eq!(dictionary.id_of(&"Alice".to_string()), Some(0));
    assert_eq!(dictionary.id_of(&"Bob".to_string()), Some(1));
    assert_eq!(dictionary.id_of(&"Chris".to_string()), None);
    let mut iter = dictionary
        .range("Alice".to_string().."Chris".to_string())
        .into_iter();
    assert_eq!(iter.next(), Some(("Alice".to_string(), 0)));
    assert_eq!(iter.next(), Some(("Bob".to_string(), 1)));
    assert_eq!(iter.next(), None);
    assert_eq!(dictionary.key_of(0), &"Alice".to_string());
    assert_eq!(dictionary.key_of(1), &"Bob".to_string());
}

#[test]
fn test_column_varchar() {
    let mut column = Column::new();
    assert_eq!(column.append("Alice".to_string()), 0);
    assert_eq!(column.append("Bob".to_string()), 1);
    assert_eq!(column.append("Alice".to_string()), 0);
    assert_eq!(column.num_keys(), 2);
    assert_eq!(column.num_rows(), 3);
    assert_eq!(column.id_of(&"Alice".to_string()), Some(0));
    assert_eq!(column.id_of(&"Bob".to_string()), Some(1));
    assert_eq!(column.id_of(&"Chris".to_string()), None);
    let mut iter = column
        .range("Alice".to_string().."Chris".to_string())
        .into_iter();
    assert_eq!(iter.next(), Some(("Alice".to_string(), 0)));
    assert_eq!(iter.next(), Some(("Bob".to_string(), 1)));
    assert_eq!(iter.next(), None);
    assert_eq!(column.key_of(0), &"Alice".to_string());
    assert_eq!(column.key_of(1), &"Bob".to_string());
    assert_eq!(column.key_at(0), Some(&"Alice".to_string()));
    assert_eq!(column.key_at(1), Some(&"Bob".to_string()));
    assert_eq!(column.key_at(2), Some(&"Alice".to_string()));
}

#[test]
fn test_dictionary_integer() {
    let mut dictionary = Dictionary::new();
    assert_eq!(dictionary.insert(10), 0);
    assert_eq!(dictionary.insert(20), 1);
    assert_eq!(dictionary.insert(10), 0);
    assert_eq!(dictionary.num_keys(), 2);
    assert_eq!(dictionary.id_of(&10), Some(0));
    assert_eq!(dictionary.id_of(&20), Some(1));
    assert_eq!(dictionary.id_of(&30), None);
    let mut iter = dictionary.range(10..30).into_iter();
    assert_eq!(iter.next(), Some((10, 0)));
    assert_eq!(iter.next(), Some((20, 1)));
    assert_eq!(iter.next(), None);
    assert_eq!(dictionary.key_of(0), &10);
    assert_eq!(dictionary.key_of(1), &20);
}

#[test]
fn test_column_integer() {
    let mut column = Column::new();
    assert_eq!(column.append(10), 0);
    assert_eq!(column.append(20), 1);
    assert_eq!(column.append(10), 0);
    assert_eq!(column.num_keys(), 2);
    assert_eq!(column.num_rows(), 3);
    assert_eq!(column.id_of(&10), Some(0));
    assert_eq!(column.id_of(&20), Some(1));
    assert_eq!(column.id_of(&30), None);
    let mut iter = column.range(10..30).into_iter();
    assert_eq!(iter.next(), Some((10, 0)));
    assert_eq!(iter.next(), Some((20, 1)));
    assert_eq!(iter.next(), None);
    assert_eq!(column.key_of(0), &10);
    assert_eq!(column.key_of(1), &20);
    assert_eq!(column.key_at(0), Some(&10));
    assert_eq!(column.key_at(1), Some(&20));
    assert_eq!(column.key_at(2), Some(&10));
}

#[test]
fn dictionary_ids_follow_first_insertion() {
    let mut dictionary = Dictionary::new();
    let keys = [30, 10, 30, 20, 10, 40, 20];
    let mut ids = Vec::new();
    for k in keys {
        ids.push(dictionary.insert(k));
    }
    assert_eq!(ids, vec![0, 1, 0, 2, 1, 3, 2]);
    assert_eq!(dictionary.num_keys(), 4);
    for k in keys {
        let id = dictionary.id_of(&k).unwrap();
        assert_eq!(*dictionary.key_of(id), k);
    }
}

#[test]
fn dictionary_range_is_ordered_by_key_not_id() {
    let mut dictionary = Dictionary::new();
    for k in ["pear", "apple", "fig", "banana"] {
        dictionary.insert(k.to_string());
    }
    let got = dictionary.range("b".to_string().."g".to_string());
    assert_eq!(
        got,
        vec![("banana".to_string(), 3), ("fig".to_string(), 2)]
    );
    let all = dictionary.range("".to_string().."zzz".to_string());
    let names: Vec<String> = all.into_iter().map(|(k, _)| k).collect();
    assert_eq!(names, vec!["apple", "banana", "fig", "pear"]);
}

#[test]
fn dictionary_text_order_is_by_code_point() {
    let mut dictionary = Dictionary::new();
    for k in ["b", "ab", "a", "B", "é", ""] {
        dictionary.insert(k.to_string());
    }
    let all = dictionary.range("".to_string().."\u{10ffff}".to_string());
    let names: Vec<String> = all.into_iter().map(|(k, _)| k).collect();
    assert_eq!(names, vec!["", "B", "a", "ab", "b", "é"]);
}

#[test]
fn dictionary_range_with_reversed_bounds_is_empty() {
    let mut dictionary = Dictionary::new();
    dictionary.insert(1);
    dictionary.insert(5);
    assert_eq!(dictionary.range(5..1), vec![]);
    assert_eq!(dictionary.range(5..5), vec![]);
}

#[test]
fn dictionary_range_into_bits_marks_ids_in_range() {
    let mut dictionary = Dictionary::new();
    for k in [50, 10, 30, 20] {
        dictionary.insert(k);
    }
    let bits = dictionary.range_into_bits(Some(&15), Some(&40));
    assert_eq!(bits.len(), 4);
    let got: Vec<bool> = (0..4).map(|i| bits.get(i).unwrap()).collect();
    assert_eq!(got, vec![false, false, true, true]);
    let below = dictionary.range_into_bits(None, Some(&30));
    let got: Vec<bool> = (0..4).map(|i| below.get(i).unwrap()).collect();
    assert_eq!(got, vec![false, true, false, true]);
    let from = dictionary.range_into_bits(Some(&30), None);
    let got: Vec<bool> = (0..4).map(|i| from.get(i).unwrap()).collect();
    assert_eq!(got, vec![true, false, true, false]);
    assert_eq!(from.get(4), None);
}

#[test]
fn empty_dictionary_has_no_keys() {
    let dictionary: Dictionary<i32> = Dictionary::new();
    assert_eq!(dictionary.num_keys(), 0);
    assert_eq!(dictionary.id_of(&1), None);
    assert_eq!(dictionary.range(0..10), vec![]);
    assert_eq!(dictionary.range_into_bits(None, None).len(), 0);
}

#[test]
fn column_counts_appends_nulls_and_pops() {
    let mut column = Column::new();
    column.append(7);
    assert_eq!(column.append_null(), NULL_KEY_ID);
    column.append(8);
    column.append_null();
    assert_eq!(column.num_rows(), 4);
    assert_eq!(column.pop(), Some(NULL_KEY_ID));
    assert_eq!(column.num_rows(), 3);
    assert_eq!(column.key_at(0), Some(&7));
    assert_eq!(column.key_at(1), None);
    assert_eq!(column.key_at(2), Some(&8));
    assert_eq!(column.id_at(1), NULL_KEY_ID);
    assert_eq!(column.num_keys(), 2);
    assert_eq!(column.pop(), Some(1));
    assert_eq!(column.pop(), Some(NULL_KEY_ID));
    assert_eq!(column.pop(), Some(0));
    assert_eq!(column.pop(), None);
    assert_eq!(column.num_rows(), 0);
}

#[test]
fn id_tuples_order_lexicographically() {
    let mut dictionary: Dictionary<Vec<usize>> = Dictionary::new();
    for k in [vec![2, 0], vec![1, 5], vec![1], vec![1, 5], vec![], vec![2]] {
        dictionary.insert(k);
    }
    assert_eq!(dictionary.num_keys(), 5);
    let all = dictionary.range(vec![]..vec![9]);
    let keys: Vec<Vec<usize>> = all.into_iter().map(|(k, _)| k).collect();
    assert_eq!(keys, vec![vec![], vec![1], vec![1, 5], vec![2], vec![2, 0]]);
    assert_eq!(dictionary.id_of(&vec![1, 5]), Some(1));
}
