use dictionary::builder::build;
use dictionary::error::Error;
use dictionary::merge::{merge, read_entries, read_lookup};
use dictionary::id_mapping::IdMapping;
use dictionary::num::U7;
use dictionary::reader::{run_content, run_lookup};
use dictionary::source::{Entry, LookupEntry, Row};

fn entry(type_id: usize, id: u32, word: &str, definitions: &str) -> Entry {
    Entry {
        type_id: U7::try_from(type_id).unwrap(),
        id,
        word: word.to_string(),
        variants: None,
        reading: None,
        definitions: definitions.to_string(),
    }
}

fn row(id: u32, word: &str, variants: Option<&str>, reading: &str, definitions: &str) -> Row {
    Row {
        id,
        word: word.to_string(),
        variants: variants.map(|v| v.to_string()),
        reading: Some(reading.to_string()),
        definitions: definitions.to_string(),
    }
}

fn reading(reading: &str, id: u32) -> LookupEntry {
    LookupEntry { reading: reading.to_string(), id }
}

#[test]
fn entries_with_one_word_are_ordered_by_partition() {
    let entries = vec![entry(1, 1, "apple", "A tech company"), entry(0, 1, "apple", "A fruit")];
    let (content, _) = build(entries, &vec![Vec::new(), Vec::new()]).unwrap();
    assert_eq!(run_content(&content, 0), Ok("apple###A fruit".to_string()));
    assert_eq!(run_content(&content, 1), Ok("apple###A tech company".to_string()));
    assert_eq!(content[4 + 2 * 2], 0);
    assert_eq!(content[4 + 2 * 2 + 16], 1);
}

#[test]
fn a_reading_of_two_entries_gives_both_ids_in_ascending_order() {
    let entries = vec![entry(0, 50, "犬", "dog"), entry(0, 40, "戌", "sign of the dog")];
    // 戌 (U+620C) sorts before 犬 (U+72AC), so entry 40 has the final id 0.
    for readings in [
        vec![vec![reading("いぬ", 50), reading("いぬ", 40)]],
        vec![vec![reading("いぬ", 40), reading("いぬ", 50)]],
    ] {
        let copy = vec![entry(0, 50, "犬", "dog"), entry(0, 40, "戌", "sign of the dog")];
        let (content, lookup) = build(copy, &readings).unwrap();
        let found = run_lookup(&lookup, 'い').unwrap();
        assert_eq!(found.len(), 1);
        assert_eq!(found[0].value, "いぬ");
        assert_eq!(found[0].ids, vec![0, 1]);
        assert_eq!(run_content(&content, 0), Ok("戌###sign of the dog".to_string()));
        assert_eq!(run_content(&content, 1), Ok("犬###dog".to_string()));
    }
    assert_eq!(entries.len(), 2);
}

#[test]
fn building_twice_gives_the_same_blobs() {
    let make = || {
        let entries: Vec<Entry> = (0..60u32)
            .map(|i| {
                let word = format!("w{}", (i * 7) % 13);
                entry((i % 4) as usize, i, &word, &format!("d{}", i % 3))
            })
            .collect();
        let readings: Vec<Vec<LookupEntry>> = (0..4u32)
            .map(|p| (0..15u32).map(|k| reading(&format!("r{}", (k * 5) % 7), p + 4 * k)).collect())
            .collect();
        build(entries, &readings).unwrap()
    };
    let first = make();
    let second = make();
    assert_eq!(first.0, second.0);
    assert_eq!(first.1, second.1);
    assert!(first.0.len() > 4 + 2 * 60);
}

#[test]
fn readings_refer_to_the_entries_of_their_own_partition() {
    let entries = vec![entry(0, 1, "b", "x"), entry(1, 1, "a", "y"), entry(1, 2, "c", "z")];
    let readings = vec![vec![reading("k", 1)], vec![reading("k", 2), reading("m", 1)]];
    let (sorted, index) = merge(entries, &readings).unwrap();
    let words: Vec<&str> = sorted.iter().map(|e| e.word.as_str()).collect();
    assert_eq!(words, vec!["a", "b", "c"]);
    let ids = |r: &str| index.get(r).map(|v| v.iter().map(|x| x.get()).collect::<Vec<u32>>());
    assert_eq!(ids("k"), Some(vec![1, 2]));
    assert_eq!(ids("m"), Some(vec![0]));
}

#[test]
fn a_reading_of_no_entry_is_a_dangling_reference() {
    let entries = vec![entry(0, 1, "a", "x"), entry(1, 2, "b", "y")];
    let readings = vec![vec![reading("k", 1)], vec![reading("k", 2), reading("m", 1)]];
    assert_eq!(
        merge(entries, &readings).err(),
        Some(Error::DanglingReference { partition: 1, source_id: 1 })
    );
    let entries = vec![entry(0, 1, "a", "x")];
    assert_eq!(
        build(entries, &vec![vec![reading("k", 9)]]).err(),
        Some(Error::DanglingReference { partition: 0, source_id: 9 })
    );
}

#[test]
fn the_first_dangling_reference_is_reported() {
    let entries = vec![entry(0, 1, "a", "x")];
    let mapping = IdMapping::new(&entries).unwrap();
    let readings = vec![
        vec![reading("k", 1), reading("k", 5), reading("k", 6)],
        vec![reading("z", 1)],
    ];
    assert_eq!(
        read_lookup(&readings, &mapping).err(),
        Some(Error::DanglingReference { partition: 0, source_id: 5 })
    );
}

#[test]
fn readings_of_a_129th_source_are_out_of_range() {
    let entries = vec![entry(0, 1, "a", "x")];
    let mapping = IdMapping::new(&entries).unwrap();
    let readings: Vec<Vec<LookupEntry>> = (0..129).map(|_| Vec::new()).collect();
    assert_eq!(
        read_lookup(&readings, &mapping).err(),
        Some(Error::RangeError { value: 128, max: 127 })
    );
    let fine: Vec<Vec<LookupEntry>> = (0..128).map(|_| Vec::new()).collect();
    assert_eq!(read_lookup(&fine, &mapping).unwrap().len(), 0);
}

#[test]
fn a_build_stops_at_a_record_that_is_too_large() {
    let entries = vec![entry(0, 1, "a", &"d".repeat(32_768))];
    assert_eq!(build(entries, &Vec::new()).err(), Some(Error::RecordTooLarge));
}

#[test]
fn a_build_stops_at_a_reading_without_characters() {
    let entries = vec![entry(0, 1, "a", "d")];
    assert_eq!(build(entries, &vec![vec![reading("", 1)]]).err(), Some(Error::EmptyReading));
}

#[test]
fn a_build_stops_at_a_reading_that_is_too_long() {
    let entries = vec![entry(0, 1, "a", "d")];
    let long = "y".repeat(300);
    assert_eq!(build(entries, &vec![vec![reading(&long, 1)]]).err(), Some(Error::CapacityExceeded));
}

#[test]
fn a_dictionary_of_nothing_has_two_headers() {
    let (content, lookup) = build(Vec::new(), &Vec::new()).unwrap();
    assert_eq!(content, vec![0, 0, 0, 4]);
    assert_eq!(lookup, vec![0, 0, 0, 4]);
}

#[test]
fn a_small_dictionary_from_rows_to_queries() {
    let rows = vec![
        vec![
            row(1, "犬", None, "いぬ", "dog"),
            row(2, "家", Some("屋"), "いえ", "house"),
        ],
        vec![row(1, "海", None, "うみ", "sea")],
    ];
    let readings = vec![
        vec![reading("いぬ", 1), reading("いえ", 2), reading("うち", 2)],
        vec![reading("うみ", 1)],
    ];
    let entries = read_entries(rows).unwrap();
    let (content, lookup) = build(entries, &readings).unwrap();
    // By code point: 家 (U+5BB6) < 海 (U+6D77) < 犬 (U+72AC).
    assert_eq!(run_content(&content, 0), Ok("家#屋#いえ#house".to_string()));
    assert_eq!(run_content(&content, 1), Ok("海##うみ#sea".to_string()));
    assert_eq!(run_content(&content, 2), Ok("犬##いぬ#dog".to_string()));
    assert_eq!(run_content(&content, 3), Err(Error::OutOfRange { id: 3, count: 3 }));
    let i: Vec<(String, Vec<u32>)> =
        run_lookup(&lookup, 'い').unwrap().into_iter().map(|e| (e.value, e.ids)).collect();
    assert_eq!(i, vec![("いえ".to_string(), vec![0]), ("いぬ".to_string(), vec![2])]);
    let u: Vec<(String, Vec<u32>)> =
        run_lookup(&lookup, 'う').unwrap().into_iter().map(|e| (e.value, e.ids)).collect();
    assert_eq!(u, vec![("うち".to_string(), vec![0]), ("うみ".to_string(), vec![1])]);
    assert_eq!(run_lookup(&lookup, 'え').err(), Some(Error::NotFound { character: 'え' }));
}
