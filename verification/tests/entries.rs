use dictionary::error::Error;
use dictionary::id_mapping::IdMapping;
use dictionary::merge::{read_entries, sort_entries};
use dictionary::num::U7;
use dictionary::order::Comparison;
use dictionary::source::{Entry, Row};

fn entry(type_id: usize, id: u32, word: &str, definitions: &str) -> Entry {
    Entry {
        type_id: U7::try_from(type_id).unwrap(),
        id,
        word: word.to_string(),
        variants: None,
        reading: None,
        definitions: definitions.to_string(),
    }
}

fn row(id: u32, word: &str) -> Row {
    Row {
        id,
        word: word.to_string(),
        variants: None,
        reading: None,
        definitions: format!("definition of {}", word),
    }
}

#[test]
fn a_record_is_the_partition_and_the_fields_with_separators() {
    let e = Entry {
        type_id: U7::try_from(2usize).unwrap(),
        id: 17,
        word: "犬".to_string(),
        variants: Some("狗".to_string()),
        reading: Some("いぬ".to_string()),
        definitions: "dog".to_string(),
    };
    let mut expected = vec![2u8];
    expected.extend_from_slice("犬#狗#いぬ#dog".as_bytes());
    assert_eq!(e.to_bytes(), expected);
    assert_eq!(Vec::<u8>::from(e), expected);
}

#[test]
fn absent_fields_of_a_record_are_empty() {
    let e = entry(0, 1, "apple", "A fruit");
    let mut expected = vec![0u8];
    expected.extend_from_slice(b"apple###A fruit");
    assert_eq!(e.to_bytes(), expected);
}

#[test]
fn a_record_of_empty_fields_is_the_partition_and_three_separators() {
    let e = entry(127, 0, "", "");
    assert_eq!(e.to_bytes(), vec![127u8, b'#', b'#', b'#']);
}

#[test]
fn a_duplicate_has_the_same_fields() {
    let e = Entry {
        type_id: U7::try_from(3usize).unwrap(),
        id: 9,
        word: "w".to_string(),
        variants: Some("v".to_string()),
        reading: None,
        definitions: "d".to_string(),
    };
    let d = e.duplicate();
    assert_eq!(d.type_id, e.type_id);
    assert_eq!(d.id, 9);
    assert_eq!(d.word, "w");
    assert_eq!(d.variants, Some("v".to_string()));
    assert_eq!(d.reading, None);
    assert_eq!(d.definitions, "d");
}

#[test]
fn keys_compare_by_word_first() {
    let a = entry(5, 0, "apple", "z");
    let b = entry(0, 0, "banana", "a");
    assert_eq!(a.compare_key(&b), Comparison::Less);
    assert_eq!(b.compare_key(&a), Comparison::Greater);
}

#[test]
fn keys_with_one_word_compare_by_partition() {
    let a = entry(0, 0, "apple", "z");
    let b = entry(1, 0, "apple", "a");
    assert_eq!(a.compare_key(&b), Comparison::Less);
    assert_eq!(b.compare_key(&a), Comparison::Greater);
}

#[test]
fn keys_with_one_word_and_partition_compare_by_definitions() {
    let a = entry(1, 7, "apple", "a");
    let b = entry(1, 3, "apple", "b");
    assert_eq!(a.compare_key(&b), Comparison::Less);
    assert_eq!(b.compare_key(&a), Comparison::Greater);
    assert_eq!(a.compare_key(&entry(1, 99, "apple", "a")), Comparison::Equal);
}

#[test]
fn sorting_orders_by_word_partition_and_definitions() {
    let mut entries = vec![
        entry(1, 1, "pear", "x"),
        entry(1, 2, "apple", "A tech company"),
        entry(0, 3, "pear", "y"),
        entry(0, 4, "apple", "A fruit"),
        entry(0, 5, "apple", "A colour"),
    ];
    sort_entries(&mut entries);
    let ids: Vec<u32> = entries.iter().map(|e| e.id).collect();
    assert_eq!(ids, vec![5, 4, 2, 3, 1]);
}

#[test]
fn sorting_keeps_entries_with_the_same_key_in_their_order() {
    let mut entries = vec![
        entry(0, 10, "same", "d"),
        entry(0, 11, "a", "d"),
        entry(0, 12, "same", "d"),
        entry(0, 13, "same", "d"),
        entry(0, 14, "a", "d"),
    ];
    sort_entries(&mut entries);
    let ids: Vec<u32> = entries.iter().map(|e| e.id).collect();
    assert_eq!(ids, vec![11, 14, 10, 12, 13]);
}

#[test]
fn sorting_nothing_and_one_entry() {
    let mut none: Vec<Entry> = Vec::new();
    sort_entries(&mut none);
    assert!(none.is_empty());
    let mut one = vec![entry(0, 1, "w", "d")];
    sort_entries(&mut one);
    assert_eq!(one.len(), 1);
    assert_eq!(one[0].id, 1);
}

#[test]
fn sorting_twice_changes_nothing() {
    let words = ["m", "c", "x", "a", "c", "b", "m", "a", "zz", "z"];
    let mut entries: Vec<Entry> =
        words.iter().enumerate().map(|(i, w)| entry(i % 3, i as u32, w, "d")).collect();
    sort_entries(&mut entries);
    let first: Vec<u32> = entries.iter().map(|e| e.id).collect();
    sort_entries(&mut entries);
    let second: Vec<u32> = entries.iter().map(|e| e.id).collect();
    assert_eq!(first, second);
    for pair in entries.windows(2) {
        assert!(pair[0].compare_key(&pair[1]) != Comparison::Greater);
    }
}

#[test]
fn sorting_orders_words_by_their_bytes() {
    let mut entries = vec![
        entry(0, 0, "いぬ", "d"),
        entry(0, 1, "Zebra", "d"),
        entry(0, 2, "zebra", "d"),
        entry(0, 3, "", "d"),
        entry(0, 4, "犬", "d"),
        entry(0, 5, "é", "d"),
    ];
    sort_entries(&mut entries);
    let words: Vec<&str> = entries.iter().map(|e| e.word.as_str()).collect();
    assert_eq!(words, vec!["", "Zebra", "zebra", "é", "いぬ", "犬"]);
}

#[test]
fn the_rows_of_the_sources_become_entries_of_their_partitions() {
    let inputs = vec![vec![row(1, "a"), row(2, "b")], vec![], vec![row(1, "c")]];
    let entries = read_entries(inputs).unwrap();
    let seen: Vec<(u8, u32, &str)> =
        entries.iter().map(|e| (e.type_id.get(), e.id, e.word.as_str())).collect();
    assert_eq!(seen, vec![(0, 1, "a"), (0, 2, "b"), (2, 1, "c")]);
    assert_eq!(entries[2].definitions, "definition of c");
}

#[test]
fn a_row_keeps_its_fields_as_an_entry() {
    let r = Row {
        id: 4,
        word: "w".to_string(),
        variants: Some("v".to_string()),
        reading: Some("r".to_string()),
        definitions: "d".to_string(),
    };
    let e = r.into_entry(U7::try_from(9usize).unwrap());
    assert_eq!(e.type_id.get(), 9);
    assert_eq!(e.id, 4);
    assert_eq!(e.word, "w");
    assert_eq!(e.variants, Some("v".to_string()));
    assert_eq!(e.reading, Some("r".to_string()));
    assert_eq!(e.definitions, "d");
}

#[test]
fn there_can_be_128_sources() {
    let inputs: Vec<Vec<Row>> = (0..128).map(|i| vec![row(i, "w")]).collect();
    let entries = read_entries(inputs).unwrap();
    assert_eq!(entries.len(), 128);
    assert_eq!(entries[127].type_id.get(), 127);
}

#[test]
fn a_129th_source_is_out_of_range() {
    let inputs: Vec<Vec<Row>> = (0..129).map(|_| Vec::new()).collect();
    assert_eq!(read_entries(inputs).err(), Some(Error::RangeError { value: 128, max: 127 }));
}

#[test]
fn the_final_id_of_an_entry_is_its_position() {
    let entries = vec![entry(0, 30, "a", "d"), entry(1, 30, "b", "d"), entry(0, 10, "c", "d")];
    let mapping = IdMapping::new(&entries).unwrap();
    let first = U7::try_from(0usize).unwrap();
    let second = U7::try_from(1usize).unwrap();
    assert_eq!(mapping.get(first, 30).map(|id| id.get()), Some(0));
    assert_eq!(mapping.get(second, 30).map(|id| id.get()), Some(1));
    assert_eq!(mapping.get(first, 10).map(|id| id.get()), Some(2));
}

#[test]
fn an_id_that_no_entry_has_is_not_mapped() {
    let entries = vec![entry(0, 30, "a", "d")];
    let mapping = IdMapping::new(&entries).unwrap();
    assert_eq!(mapping.get(U7::try_from(0usize).unwrap(), 31), None);
    assert_eq!(mapping.get(U7::try_from(1usize).unwrap(), 30), None);
    let empty = IdMapping::new(&[]).unwrap();
    assert_eq!(empty.get(U7::try_from(0usize).unwrap(), 0), None);
}

#[test]
fn of_two_entries_with_one_id_the_later_one_is_mapped() {
    let entries = vec![entry(0, 7, "a", "d"), entry(0, 8, "b", "d"), entry(0, 7, "c", "d")];
    let mapping = IdMapping::new(&entries).unwrap();
    assert_eq!(mapping.get(U7::try_from(0usize).unwrap(), 7).map(|id| id.get()), Some(2));
    assert_eq!(mapping.get(U7::try_from(0usize).unwrap(), 8).map(|id| id.get()), Some(1));
}

#[test]
fn the_positions_of_the_entries_in_their_order() {
    let entries = vec![
        entry(0, 0, "pear", "d"),
        entry(0, 1, "apple", "d"),
        entry(0, 2, "pear", "d"),
        entry(1, 3, "apple", "d"),
        entry(0, 4, "apple", "d"),
    ];
    assert_eq!(dictionary::sort::sorted_positions(&entries), vec![1, 4, 3, 0, 2]);
    let none: Vec<Entry> = Vec::new();
    assert!(dictionary::sort::sorted_positions(&none).is_empty());
}

#[test]
fn many_entries_are_sorted_as_by_their_keys() {
    let mut entries: Vec<Entry> = (0..500u32)
        .map(|i| {
            let word = format!("w{}", (i * 7919) % 101);
            entry(((i * 31) % 5) as usize, i, &word, &format!("d{}", (i * 13) % 7))
        })
        .collect();
    let mut expected: Vec<(String, u8, String, u32)> = entries
        .iter()
        .map(|e| (e.word.clone(), e.type_id.get(), e.definitions.clone(), e.id))
        .collect();
    expected.sort_by(|a, b| (&a.0, a.1, &a.2).cmp(&(&b.0, b.1, &b.2)));
    sort_entries(&mut entries);
    let got: Vec<(String, u8, String, u32)> = entries
        .iter()
        .map(|e| (e.word.clone(), e.type_id.get(), e.definitions.clone(), e.id))
        .collect();
    assert_eq!(got, expected);
}
