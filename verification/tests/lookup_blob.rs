use dictionary::encode::Encode;
use dictionary::error::Error;
use dictionary::lookup::Lookup;
use dictionary::num::U31;
use dictionary::reader::{read_lookup_entry, run_lookup, LookupEntry};
use dictionary::reading_index::ReadingIndex;

fn id(v: usize) -> U31 {
    U31::try_from(v).unwrap()
}

fn index_of(pairs: &[(&str, usize)]) -> ReadingIndex {
    let mut index = ReadingIndex::new();
    for (reading, v) in pairs {
        index.add(reading.to_string(), id(*v));
    }
    index
}

fn encoded(pairs: &[(&str, usize)]) -> Vec<u8> {
    let lookup = Lookup::for_entries(index_of(pairs)).unwrap();
    let mut blob = Vec::new();
    lookup.encode(&mut blob);
    blob
}

fn found(entries: &[LookupEntry]) -> Vec<(String, Vec<u32>)> {
    entries.iter().map(|e| (e.value.clone(), e.ids.clone())).collect()
}

#[test]
fn an_index_lists_ids_under_readings_in_their_order() {
    let index = index_of(&[("b", 5), ("a", 9), ("b", 2), ("c", 1), ("a", 9)]);
    assert_eq!(index.len(), 3);
    let ids = |r: &str| index.get(r).map(|v| v.iter().map(|x| x.get()).collect::<Vec<u32>>());
    assert_eq!(ids("a"), Some(vec![9, 9]));
    assert_eq!(ids("b"), Some(vec![5, 2]));
    assert_eq!(ids("c"), Some(vec![1]));
    assert_eq!(ids("d"), None);
    assert_eq!(ids(""), None);
}

#[test]
fn the_place_of_a_reading_is_the_number_of_readings_before_it() {
    let index = index_of(&[("m", 0), ("c", 0), ("x", 0)]);
    assert_eq!(index.place("a"), 0);
    assert_eq!(index.place("c"), 0);
    assert_eq!(index.place("d"), 1);
    assert_eq!(index.place("m"), 1);
    assert_eq!(index.place("n"), 2);
    assert_eq!(index.place("x"), 2);
    assert_eq!(index.place("y"), 3);
    assert_eq!(ReadingIndex::new().place("a"), 0);
    assert_eq!(ReadingIndex::new().len(), 0);
}

#[test]
fn the_lookup_blob_is_header_buckets_and_values() {
    let blob = encoded(&[("ab", 3), ("b", 1), ("ac", 2), ("ab", 1)]);
    assert_eq!(
        blob,
        vec![
            0, 0, 0, 20, // header size: 4 + 8 * 2
            0, 0, 0, b'a', 0, 0, 0, 0, // 'a' at offset 0
            0, 0, 0, b'b', 0, 0, 0, 22, // 'b' after "ab" (13 bytes) and "ac" (9 bytes)
            2, b'a', b'b', 0, 2, 0, 0, 0, 1, 0, 0, 0, 3, // "ab": ids 1, 3
            2, b'a', b'c', 0, 1, 0, 0, 0, 2, // "ac": id 2
            1, b'b', 0, 1, 0, 0, 0, 1, // "b": id 1
        ]
    );
}

#[test]
fn the_lookup_blob_of_no_readings_is_its_size_field() {
    assert_eq!(encoded(&[]), vec![0, 0, 0, 4]);
}

#[test]
fn a_bucket_holds_the_code_point_of_its_character() {
    let blob = encoded(&[("いぬ", 1)]);
    assert_eq!(&blob[..12], &[0, 0, 0, 12, 0, 0, 0x30, 0x44, 0, 0, 0, 0]);
    assert_eq!(blob[12], 6);
    assert_eq!(&blob[13..19], "いぬ".as_bytes());
    assert_eq!(&blob[19..], &[0, 1, 0, 0, 0, 1]);
}

#[test]
fn a_reading_is_found_under_its_leading_character() {
    let blob = encoded(&[("いぬ", 7), ("いぬ", 3)]);
    let entries = run_lookup(&blob, 'い').unwrap();
    assert_eq!(found(&entries), vec![("いぬ".to_string(), vec![3, 7])]);
}

#[test]
fn the_ids_of_a_reading_ascend_however_they_were_listed() {
    let one = encoded(&[("いぬ", 7), ("いぬ", 3)]);
    let other = encoded(&[("いぬ", 3), ("いぬ", 7)]);
    assert_eq!(one, other);
    let many = encoded(&[("k", 9), ("k", 1), ("k", 5), ("k", 1), ("k", 0), ("k", 2_147_483_647)]);
    let entries = run_lookup(&many, 'k').unwrap();
    assert_eq!(found(&entries), vec![("k".to_string(), vec![0, 1, 1, 5, 9, 2_147_483_647])]);
}

#[test]
fn all_readings_with_the_character_are_found_and_no_others() {
    let blob = encoded(&[
        ("いぬ", 1),
        ("あさ", 2),
        ("いえ", 3),
        ("うみ", 4),
        ("い", 5),
        ("いぬ", 6),
        ("apple", 7),
    ]);
    let entries = run_lookup(&blob, 'い').unwrap();
    assert_eq!(
        found(&entries),
        vec![
            ("い".to_string(), vec![5]),
            ("いえ".to_string(), vec![3]),
            ("いぬ".to_string(), vec![1, 6]),
        ]
    );
    assert_eq!(found(&run_lookup(&blob, 'あ').unwrap()), vec![("あさ".to_string(), vec![2])]);
    assert_eq!(found(&run_lookup(&blob, 'う').unwrap()), vec![("うみ".to_string(), vec![4])]);
    assert_eq!(found(&run_lookup(&blob, 'a').unwrap()), vec![("apple".to_string(), vec![7])]);
}

#[test]
fn every_reading_is_found_under_its_own_leading_character() {
    let readings =
        ["a", "ab", "abc", "b", "ba", "é", "éa", "犬", "犬小屋", "猫", "z", "\u{10348}x"];
    let pairs: Vec<(&str, usize)> = readings.iter().enumerate().map(|(i, r)| (*r, i)).collect();
    let blob = encoded(&pairs);
    for (i, r) in readings.iter().enumerate() {
        let ch = r.chars().next().unwrap();
        let entries = run_lookup(&blob, ch).unwrap();
        assert!(entries.iter().any(|e| e.value == *r && e.ids == vec![i as u32]));
        assert!(entries.iter().all(|e| e.value.starts_with(ch)));
        let expected = readings.iter().filter(|x| x.starts_with(ch)).count();
        assert_eq!(entries.len(), expected);
    }
}

#[test]
fn a_character_without_readings_is_not_found() {
    let blob = encoded(&[("apple", 1), ("cat", 2)]);
    assert_eq!(run_lookup(&blob, 'b').err(), Some(Error::NotFound { character: 'b' }));
    assert_eq!(run_lookup(&blob, 'い').err(), Some(Error::NotFound { character: 'い' }));
    assert_eq!(run_lookup(&[0, 0, 0, 4], 'a').err(), Some(Error::NotFound { character: 'a' }));
}

#[test]
fn a_reading_without_characters_is_rejected() {
    let r = Lookup::for_entries(index_of(&[("a", 1), ("", 2)]));
    assert_eq!(r.err(), Some(Error::EmptyReading));
}

#[test]
fn a_reading_of_255_bytes_is_accepted() {
    let long = "x".repeat(255);
    let blob = encoded(&[(&long, 1)]);
    assert_eq!(blob[12], 255);
    let entries = run_lookup(&blob, 'x').unwrap();
    assert_eq!(found(&entries), vec![(long, vec![1])]);
}

#[test]
fn a_reading_of_256_bytes_is_rejected() {
    let long = "x".repeat(256);
    let r = Lookup::for_entries(index_of(&[("a", 1), (&long, 2)]));
    assert_eq!(r.err(), Some(Error::CapacityExceeded));
    let wide = "あ".repeat(86);
    let r = Lookup::for_entries(index_of(&[(&wide, 1)]));
    assert_eq!(r.err(), Some(Error::CapacityExceeded));
}

#[test]
fn a_reading_with_32767_ids_is_accepted() {
    let mut index = ReadingIndex::new();
    for v in 0..32_767usize {
        index.add("k".to_string(), id(32_766 - v));
    }
    let lookup = Lookup::for_entries(index).unwrap();
    let mut blob = Vec::new();
    lookup.encode(&mut blob);
    assert_eq!(&blob[12..16], &[1, b'k', 0x7f, 0xff]);
    let entries = run_lookup(&blob, 'k').unwrap();
    assert_eq!(entries.len(), 1);
    assert_eq!(entries[0].ids, (0..32_767u32).collect::<Vec<u32>>());
}

#[test]
fn a_reading_with_32768_ids_is_rejected() {
    let mut index = ReadingIndex::new();
    for v in 0..32_768usize {
        index.add("k".to_string(), id(v));
    }
    assert_eq!(Lookup::for_entries(index).err(), Some(Error::CapacityExceeded));
}

#[test]
fn a_listing_is_read_where_it_stands() {
    let blob = [9u8, 2, b'a', b'b', 0, 2, 0, 0, 0, 1, 0, 0, 1, 0, 7];
    let (entry, end) = read_lookup_entry(&blob, 1).unwrap();
    assert_eq!(entry.value, "ab");
    assert_eq!(entry.ids, vec![1, 256]);
    assert_eq!(end, 14);
}

#[test]
fn a_listing_that_is_cut_short_is_corrupt() {
    let whole = [2u8, b'a', b'b', 0, 1, 0, 0, 0, 1];
    assert!(read_lookup_entry(&whole, 0).is_ok());
    for cut in 0..whole.len() {
        assert_eq!(read_lookup_entry(&whole[..cut], 0).err(), Some(Error::Corrupt));
    }
    assert_eq!(read_lookup_entry(&whole, 9).err(), Some(Error::Corrupt));
    assert_eq!(read_lookup_entry(&whole, usize::MAX).err(), Some(Error::Corrupt));
}

#[test]
fn a_key_that_is_not_utf8_is_an_invalid_encoding() {
    let blob = [2u8, 0xff, 0xfe, 0, 0];
    assert_eq!(read_lookup_entry(&blob, 0).err(), Some(Error::InvalidEncoding));
    // The key is looked at before the ids are.
    assert_eq!(read_lookup_entry(&blob[..3], 0).err(), Some(Error::InvalidEncoding));
}

#[test]
fn a_new_lookup_entry_has_no_ids() {
    let e = LookupEntry::new("よみ".to_string());
    assert_eq!(e.value, "よみ");
    assert!(e.ids.is_empty());
}

#[test]
fn a_lookup_blob_that_is_shorter_than_its_header_is_corrupt() {
    assert_eq!(run_lookup(&[], 'a').err(), Some(Error::Corrupt));
    assert_eq!(run_lookup(&[0, 0, 0, 12, 0, 0, 0, b'a'], 'a').err(), Some(Error::Corrupt));
    assert_eq!(run_lookup(&[0, 0, 0, 3], 'a').err(), Some(Error::Corrupt));
}

#[test]
fn a_bucket_of_no_character_is_corrupt() {
    let surrogate = [0u8, 0, 0, 12, 0, 0, 0xd8, 0, 0, 0, 0, 0];
    assert_eq!(run_lookup(&surrogate, 'a').err(), Some(Error::Corrupt));
    let beyond = [0u8, 0, 0, 12, 0, 0x11, 0, 0, 0, 0, 0, 0];
    assert_eq!(run_lookup(&beyond, 'a').err(), Some(Error::Corrupt));
}

#[test]
fn a_bucket_that_points_to_the_end_finds_nothing() {
    let blob = [0u8, 0, 0, 12, 0, 0, 0, b'a', 0, 0, 0, 0];
    assert!(run_lookup(&blob, 'a').unwrap().is_empty());
    let far = [0u8, 0, 0, 12, 0, 0, 0, b'a', 0xff, 0xff, 0xff, 0xff];
    assert!(run_lookup(&far, 'a').unwrap().is_empty());
}

#[test]
fn of_two_buckets_of_one_character_the_later_one_counts() {
    let blob = [
        0u8, 0, 0, 20, //
        0, 0, 0, b'a', 0, 0, 0, 0, //
        0, 0, 0, b'a', 0, 0, 0, 8, //
        1, b'a', 0, 1, 0, 0, 0, 1, //
        2, b'a', b'b', 0, 0,
    ];
    let entries = run_lookup(&blob, 'a').unwrap();
    assert_eq!(found(&entries), vec![("ab".to_string(), Vec::new())]);
}

#[test]
fn a_scan_that_meets_a_cut_listing_is_corrupt() {
    let mut blob = encoded(&[("ab", 1), ("ac", 2)]);
    blob.pop();
    assert_eq!(run_lookup(&blob, 'a').err(), Some(Error::Corrupt));
}

#[test]
fn collecting_pairs_lists_each_id_under_its_reading() {
    let pairs: Vec<(String, U31)> = [("b", 5), ("a", 9), ("b", 2), ("c", 1), ("a", 9), ("b", 0)]
        .iter()
        .map(|(r, v)| (r.to_string(), id(*v)))
        .collect();
    let index = dictionary::collect::collect(&pairs);
    assert_eq!(index.len(), 3);
    let ids = |r: &str| index.get(r).map(|v| v.iter().map(|x| x.get()).collect::<Vec<u32>>());
    assert_eq!(ids("a"), Some(vec![9, 9]));
    assert_eq!(ids("b"), Some(vec![5, 2, 0]));
    assert_eq!(ids("c"), Some(vec![1]));
    assert_eq!(ids("d"), None);
    assert_eq!(dictionary::collect::collect(&Vec::new()).len(), 0);
}

#[test]
fn collecting_pairs_is_listing_them_one_after_the_other() {
    let readings = ["い", "あ", "う", "い", "a", "あ", "", "zz", "a", "い"];
    let pairs: Vec<(String, U31)> =
        readings.iter().enumerate().map(|(i, r)| (r.to_string(), id(100 - i))).collect();
    let collected = dictionary::collect::collect(&pairs);
    let mut listed = ReadingIndex::new();
    for (r, v) in &pairs {
        listed.add(r.clone(), *v);
    }
    assert_eq!(collected.len(), listed.len());
    for r in readings {
        assert_eq!(collected.get(r), listed.get(r));
        assert_eq!(collected.place(r), listed.place(r));
    }
}
