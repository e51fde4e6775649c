use dictionary::content::Content;
use dictionary::encode::Encode;
use dictionary::error::Error;
use dictionary::num::U7;
use dictionary::reader::{read_entry, read_offsets, run_content};
use dictionary::source::Entry;

fn encoded(records: Vec<Vec<u8>>) -> Vec<u8> {
    let content = Content::for_entries(records).unwrap();
    let mut blob = Vec::new();
    content.encode(&mut blob);
    blob
}

fn entry(
    type_id: usize,
    word: &str,
    variants: Option<&str>,
    reading: Option<&str>,
    definitions: &str,
) -> Entry {
    Entry {
        type_id: U7::try_from(type_id).unwrap(),
        id: 0,
        word: word.to_string(),
        variants: variants.map(|v| v.to_string()),
        reading: reading.map(|r| r.to_string()),
        definitions: definitions.to_string(),
    }
}

#[test]
fn the_content_blob_is_header_table_and_records() {
    let blob = encoded(vec![vec![0, b'a'], vec![1, b'b', b'c'], vec![2]]);
    assert_eq!(
        blob,
        vec![
            0, 0, 0, 10, // header size: 4 + 2 * 3
            0, 0, // nothing before the first record
            0, 2, // length of the first record
            0, 3, // length of the second record
            0, b'a', 1, b'b', b'c', 2,
        ]
    );
}

#[test]
fn the_content_blob_of_no_records_is_its_size_field() {
    assert_eq!(encoded(Vec::new()), vec![0, 0, 0, 4]);
}

#[test]
fn encoding_appends_to_what_is_there() {
    let content = Content::for_entries(vec![vec![5, 6]]).unwrap();
    let mut w = vec![0xaa, 0xbb];
    content.encode(&mut w);
    assert_eq!(w, vec![0xaa, 0xbb, 0, 0, 0, 6, 0, 0, 5, 6]);
}

#[test]
fn a_record_of_the_largest_length_is_accepted() {
    let blob = encoded(vec![vec![7u8; 32_767], vec![1]]);
    assert_eq!(&blob[..8], &[0, 0, 0, 8, 0, 0, 0x7f, 0xff]);
    assert_eq!(blob.len(), 8 + 32_767 + 1);
}

#[test]
fn a_record_that_is_too_long_is_rejected() {
    let r = Content::for_entries(vec![vec![1], vec![7u8; 32_768], vec![2]]);
    assert_eq!(r.err(), Some(Error::RecordTooLarge));
}

#[test]
fn a_last_record_that_is_too_long_is_rejected() {
    let r = Content::for_entries(vec![vec![1], vec![7u8; 40_000]]);
    assert_eq!(r.err(), Some(Error::RecordTooLarge));
}

#[test]
fn offsets_are_the_running_sums_of_the_table() {
    let blob = encoded(vec![vec![0, b'a'], vec![1, b'b', b'c'], vec![2], vec![3, 3, 3, 3]]);
    assert_eq!(read_offsets(&blob), Ok(vec![0, 2, 5, 6]));
}

#[test]
fn offsets_do_not_descend_and_end_with_the_body() {
    let records: Vec<Vec<u8>> = (0..50u8).map(|i| vec![i; (i as usize * 37) % 11 + 1]).collect();
    let last = records.last().unwrap().len() as u64;
    let blob = encoded(records);
    let offsets = read_offsets(&blob).unwrap();
    assert_eq!(offsets.len(), 50);
    for pair in offsets.windows(2) {
        assert!(pair[0] <= pair[1]);
    }
    let body = blob.len() as u64 - (4 + 2 * 50);
    assert_eq!(offsets[49] + last, body);
}

#[test]
fn offsets_of_a_blob_without_records() {
    assert_eq!(read_offsets(&[0, 0, 0, 4]), Ok(Vec::new()));
}

#[test]
fn a_blob_that_is_shorter_than_its_header_is_corrupt() {
    assert_eq!(read_offsets(&[]), Err(Error::Corrupt));
    assert_eq!(read_offsets(&[0, 0, 0]), Err(Error::Corrupt));
    assert_eq!(read_offsets(&[0, 0, 0, 8, 0, 0, 0]), Err(Error::Corrupt));
    assert_eq!(run_content(&[0, 0, 0, 6, 0], 0), Err(Error::Corrupt));
}

#[test]
fn a_header_size_below_its_own_field_is_corrupt() {
    assert_eq!(read_offsets(&[0, 0, 0, 3, 9, 9]), Err(Error::Corrupt));
    assert_eq!(run_content(&[0, 0, 0, 0], 0), Err(Error::Corrupt));
}

#[test]
fn an_entry_is_read_by_its_id() {
    let entries = vec![
        entry(0, "apple", None, None, "A fruit"),
        entry(1, "犬", Some("狗"), Some("いぬ"), "dog; hound"),
        entry(2, "", None, Some("r"), ""),
    ];
    let blob = encoded(entries.iter().map(|e| e.to_bytes()).collect());
    assert_eq!(run_content(&blob, 0), Ok("apple###A fruit".to_string()));
    assert_eq!(run_content(&blob, 1), Ok("犬#狗#いぬ#dog; hound".to_string()));
    assert_eq!(run_content(&blob, 2), Ok("##r#".to_string()));
}

#[test]
fn every_entry_reads_back_as_its_text() {
    let entries: Vec<Entry> = (0..40usize)
        .map(|i| {
            entry(
                i % 5,
                &format!("word{}", i),
                if i % 2 == 0 { Some("var") } else { None },
                if i % 3 == 0 { Some("よみ") } else { None },
                &"d".repeat(i),
            )
        })
        .collect();
    let blob = encoded(entries.iter().map(|e| e.to_bytes()).collect());
    for (i, e) in entries.iter().enumerate() {
        let expected = format!(
            "{}#{}#{}#{}",
            e.word,
            e.variants.clone().unwrap_or_default(),
            e.reading.clone().unwrap_or_default(),
            e.definitions
        );
        assert_eq!(run_content(&blob, i as u32), Ok(expected));
    }
}

#[test]
fn the_id_after_the_last_is_out_of_range() {
    let blob = encoded(vec![vec![0, b'a'], vec![0, b'b'], vec![0, b'c']]);
    assert_eq!(run_content(&blob, 3), Err(Error::OutOfRange { id: 3, count: 3 }));
    assert_eq!(
        run_content(&blob, u32::MAX),
        Err(Error::OutOfRange { id: u32::MAX as usize, count: 3 })
    );
    assert_eq!(run_content(&[0, 0, 0, 4], 0), Err(Error::OutOfRange { id: 0, count: 0 }));
}

#[test]
fn a_record_that_is_not_utf8_is_an_invalid_encoding() {
    let blob = encoded(vec![vec![0, b'o', b'k'], vec![0, 0xff, 0xfe], vec![0, 0xe3, 0x81]]);
    assert_eq!(run_content(&blob, 0), Ok("ok".to_string()));
    assert_eq!(run_content(&blob, 1), Err(Error::InvalidEncoding));
    assert_eq!(run_content(&blob, 2), Err(Error::InvalidEncoding));
}

#[test]
fn a_record_without_its_first_byte_is_corrupt() {
    let blob = encoded(vec![vec![0, b'a'], Vec::new(), vec![0, b'c']]);
    assert_eq!(run_content(&blob, 0), Ok("a".to_string()));
    assert_eq!(run_content(&blob, 1), Err(Error::Corrupt));
    assert_eq!(run_content(&blob, 2), Ok("c".to_string()));
}

#[test]
fn a_table_that_points_beyond_the_body_is_corrupt() {
    // Two records are announced, the second of which would start at 9.
    let blob = [0u8, 0, 0, 8, 0, 0, 0, 9, 1, b'a'];
    assert_eq!(run_content(&blob, 0), Err(Error::Corrupt));
    assert_eq!(run_content(&blob, 1), Err(Error::Corrupt));
}

#[test]
fn read_entry_skips_the_byte_of_the_partition() {
    let content = [9u8, b'a', b'b', 8, b'c'];
    assert_eq!(read_entry(&[0, 3], &content, 0), Ok("ab".to_string()));
    assert_eq!(read_entry(&[0, 3], &content, 1), Ok("c".to_string()));
    assert_eq!(read_entry(&[0, 3], &content, 2), Err(Error::OutOfRange { id: 2, count: 2 }));
    assert_eq!(read_entry(&[], &content, 0), Err(Error::OutOfRange { id: 0, count: 0 }));
}

#[test]
fn read_entry_rejects_offsets_that_do_not_fit_the_content() {
    let content = [9u8, b'a', b'b'];
    assert_eq!(read_entry(&[0, 4], &content, 0), Err(Error::Corrupt));
    assert_eq!(read_entry(&[3], &content, 0), Err(Error::Corrupt));
    assert_eq!(read_entry(&[2, 1], &content, 0), Err(Error::Corrupt));
    assert_eq!(read_entry(&[u64::MAX], &content, 0), Err(Error::Corrupt));
    assert_eq!(read_entry(&[2], &content, 0), Ok(String::new()));
}

#[test]
fn an_odd_header_size_counts_whole_fields() {
    // Size 7 announces one field; the body starts after it, at 6.
    let blob = [0u8, 0, 0, 7, 0, 0, 1, b'x'];
    assert_eq!(read_offsets(&blob), Ok(vec![0]));
    assert_eq!(run_content(&blob, 0), Ok("x".to_string()));
}
