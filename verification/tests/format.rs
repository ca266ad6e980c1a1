use pak::artifact::{PakIndexSlot, PakPageSlot};
use pak::wire::{
    put_blob, put_counted, put_link, put_text, put_u32, put_u64, take_blob, take_counted,
    take_link, take_text, take_u32, take_u64, to_bytes, Codec,
};
use pak::{
    PakMeta, PakSizing, PakTreePage, PakTreePageEntry, PakTypedPointer, PakUntypedPointer,
    PakValue,
};
use std::collections::VecDeque;

#[test]
fn numbers_are_written_lowest_byte_first() {
    let mut out = vec![9u8];
    put_u64(&mut out, 0x0102_0304_0506_0708);
    assert_eq!(out, vec![9, 8, 7, 6, 5, 4, 3, 2, 1]);
    assert_eq!(take_u64(&out, 1), Some((0x0102_0304_0506_0708, 9)));
    assert_eq!(take_u64(&out, 2), None);
    let mut out = Vec::new();
    put_u32(&mut out, 0x0102_0304);
    assert_eq!(out, vec![4, 3, 2, 1]);
    assert_eq!(take_u32(&out, 0), Some((0x0102_0304, 4)));
    assert_eq!(take_u32(&out, 1), None);
}

#[test]
fn sizing_is_three_numbers_in_24_bytes() {
    let sizing = PakSizing { meta_size: 1, indices_size: 0x0203, vault_size: u64::MAX };
    let out = to_bytes(&sizing);
    assert_eq!(out.len(), 24);
    assert_eq!(&out[0..8], &[1, 0, 0, 0, 0, 0, 0, 0]);
    assert_eq!(&out[8..16], &[3, 2, 0, 0, 0, 0, 0, 0]);
    assert_eq!(&out[16..24], &[255; 8]);
    assert_eq!(out, bincode::serialize(&(1u64, 0x0203u64, u64::MAX)).unwrap());
    assert_eq!(PakSizing::take(&out, 0), Some((sizing, 24)));
    assert_eq!(PakSizing::take(&out[..23], 0), None);
}

#[test]
fn text_is_written_behind_its_length() {
    let mut out = Vec::new();
    put_text(&mut out, "héllo");
    assert_eq!(out, bincode::serialize("héllo").unwrap());
    assert_eq!(out[0], 6);
    assert_eq!(take_text(&out, 0), Some(("héllo".to_string(), out.len())));
    // A length that runs past the end.
    assert_eq!(take_text(&out[..out.len() - 1], 0), None);
    // Bytes that are no text.
    let mut bad = Vec::new();
    put_blob(&mut bad, &[0xff, 0xfe]);
    assert_eq!(take_blob(&bad, 0), Some((8, 10)));
    assert_eq!(take_text(&bad, 0), None);
}

#[test]
fn links_are_written_behind_a_flag() {
    let mut out = Vec::new();
    put_link(&mut out, None);
    assert_eq!(out, vec![0]);
    assert_eq!(out, bincode::serialize(&None::<u64>).unwrap());
    assert_eq!(take_link(&out, 0), Some((None, 1)));
    let mut out = Vec::new();
    put_link(&mut out, Some(7));
    assert_eq!(out, bincode::serialize(&Some(7u64)).unwrap());
    assert_eq!(take_link(&out, 0), Some((Some(7), 9)));
    assert_eq!(take_link(&[2u8, 0, 0, 0, 0, 0, 0, 0, 0], 0), None);
    assert_eq!(take_link(&[1u8, 0, 0], 0), None);
    assert_eq!(take_link(&[], 0), None);
}

#[test]
fn values_are_written_behind_the_number_of_their_variant() {
    let cases: Vec<(PakValue, Vec<u8>)> = vec![
        (PakValue::String("ab".to_string()), vec![0, 0, 0, 0, 2, 0, 0, 0, 0, 0, 0, 0, 97, 98]),
        (PakValue::Float(1), vec![1, 0, 0, 0, 1, 0, 0, 0, 0, 0, 0, 0]),
        (PakValue::Int(-1), vec![2, 0, 0, 0, 255, 255, 255, 255, 255, 255, 255, 255]),
        (PakValue::Int(i64::MIN), vec![2, 0, 0, 0, 0, 0, 0, 0, 0, 0, 0, 128]),
        (PakValue::Uint(258), vec![3, 0, 0, 0, 2, 1, 0, 0, 0, 0, 0, 0]),
        (PakValue::Boolean(true), vec![4, 0, 0, 0, 1]),
        (PakValue::Boolean(false), vec![4, 0, 0, 0, 0]),
        (PakValue::Void, vec![5, 0, 0, 0]),
    ];
    for (value, bytes) in cases {
        assert_eq!(to_bytes(&value), bytes);
        let (back, end) = PakValue::take(&bytes, 0).unwrap();
        assert_eq!(end, bytes.len());
        assert!(matches!(back.partial_compare(&value), Some(pak::PakOrder::Equal)));
    }
    assert!(PakValue::take(&[6, 0, 0, 0], 0).is_none());
    assert!(PakValue::take(&[4, 0, 0, 0, 2], 0).is_none());
    assert!(PakValue::take(&[4, 0, 0, 0], 0).is_none());
    assert!(PakValue::take(&[3, 0, 0, 0, 1], 0).is_none());
    assert!(PakValue::take(&[3, 0, 0], 0).is_none());
}

#[test]
fn pointers_are_read_back() {
    let typed = PakTypedPointer::new(3, 4, "a::B");
    let out = to_bytes(&typed);
    assert_eq!(out, bincode::serialize(&(3u64, 4u64, "a::B")).unwrap());
    assert_eq!(PakTypedPointer::take(&out, 0), Some((typed, out.len())));
    let untyped = PakUntypedPointer::new(5, 6);
    let out = to_bytes(&untyped);
    assert_eq!(out, bincode::serialize(&(5u64, 6u64)).unwrap());
    assert_eq!(PakUntypedPointer::take(&out, 0), Some((untyped, 16)));
    assert_eq!(PakUntypedPointer::take(&out[..15], 0), None);
}

#[test]
fn pages_are_read_back_as_written() {
    let mut first = PakTreePageEntry::new(PakValue::Uint(5), PakTypedPointer::new(0, 27, "P"));
    first.values.push(PakTypedPointer::new(27, 27, "P"));
    first.previous = Some(3);
    let second = PakTreePageEntry::new(PakValue::String("x".to_string()), PakTypedPointer::new(1, 2, "Q"));
    let mut values = VecDeque::new();
    values.push_back(first);
    values.push_back(second);
    let mut page = PakTreePage::new_with_entries(values);
    page.next = Some(9);
    let out = to_bytes(&page);
    let plain = (
        vec![
            (3u32, 5u64, vec![(0u64, 27u64, "P"), (27u64, 27u64, "P")], Some(3u64)),
        ],
        0u8,
    );
    // The first entry as a serializer writes the same fields one after the other.
    let head = bincode::serialize(&plain.0).unwrap();
    assert_eq!(&out[8..head.len()], &head[8..]);
    let (back, end) = PakTreePage::take(&out, 0).unwrap();
    assert_eq!(end, out.len());
    assert_eq!(back.next, Some(9));
    assert_eq!(back.values.len(), 2);
    assert_eq!(back.values[0].previous, Some(3));
    assert_eq!(back.values[0].values.len(), 2);
    assert_eq!(back.values[0].values[1], PakTypedPointer::new(27, 27, "P"));
    assert_eq!(back.values[1].key, PakValue::String("x".to_string()));
    assert_eq!(back.values[1].previous, None);
    assert!(PakTreePage::take(&out[..out.len() - 1], 0).is_none());
    let empty = PakTreePage::new();
    assert_eq!(to_bytes(&empty), vec![0, 0, 0, 0, 0, 0, 0, 0, 0]);
}

#[test]
fn metadata_is_four_texts() {
    let meta = PakMeta {
        name: "n".to_string(),
        version: "1.0".to_string(),
        description: "".to_string(),
        author: "me".to_string(),
    };
    let out = to_bytes(&meta);
    assert_eq!(out, bincode::serialize(&("n", "1.0", "", "me")).unwrap());
    let (back, end) = PakMeta::take(&out, 0).unwrap();
    assert_eq!(end, out.len());
    assert_eq!(back.name, "n");
    assert_eq!(back.version, "1.0");
    assert_eq!(back.description, "");
    assert_eq!(back.author, "me");
    assert!(PakMeta::take(&out[..out.len() - 1], 0).is_none());
}

#[test]
fn directory_and_page_table_lines() {
    let slots = vec![
        PakIndexSlot { key: "age".to_string(), pointer: PakUntypedPointer::new(1, 2) },
        PakIndexSlot { key: "name".to_string(), pointer: PakUntypedPointer::new(3, 4) },
    ];
    let mut out = Vec::new();
    put_counted(&mut out, &slots);
    assert_eq!(out, bincode::serialize(&vec![("age", (1u64, 2u64)), ("name", (3u64, 4u64))]).unwrap());
    let (back, end) = take_counted::<PakIndexSlot>(&out, 0).unwrap();
    assert_eq!(end, out.len());
    assert_eq!(back.len(), 2);
    assert_eq!(back[1].key, "name");
    assert_eq!(back[1].pointer, PakUntypedPointer::new(3, 4));
    let lines = vec![
        PakPageSlot { index: 0, pointer: PakUntypedPointer::new(10, 20) },
        PakPageSlot { index: 1, pointer: PakUntypedPointer::new(30, 40) },
    ];
    let mut out = Vec::new();
    put_counted(&mut out, &lines);
    assert_eq!(out, bincode::serialize(&vec![(0u64, (10u64, 20u64)), (1u64, (30u64, 40u64))]).unwrap());
    assert_eq!(take_counted::<PakPageSlot>(&out, 0), Some((lines, out.len())));
    // A count that promises more lines than there are.
    let mut short = Vec::new();
    put_u64(&mut short, 3);
    short.extend_from_slice(&out[8..]);
    assert!(take_counted::<PakPageSlot>(&short, 0).is_none());
}

#[test]
fn artifact_is_sizes_metadata_directory_and_vault() {
    let meta = PakMeta {
        name: "n".to_string(),
        version: "1.0".to_string(),
        description: "".to_string(),
        author: "".to_string(),
    };
    let directory = vec![PakIndexSlot { key: "a".to_string(), pointer: PakUntypedPointer::new(1, 2) }];
    let framed = vec![2, 0, 0, 0, 0, 0, 0, 0, 7, 9];
    let (out, sizing) = pak::builder::assemble(&meta, &directory, framed, 10);
    // Four texts: 8 + 1, 8 + 3, 8, 8 bytes. One line behind its count: 8 + (8 + 1) + 16.
    assert_eq!(sizing.meta_size, 36);
    assert_eq!(sizing.indices_size, 33);
    assert_eq!(sizing.vault_size, 10);
    assert_eq!(out.len(), 24 + 36 + 33 + 10);
    assert_eq!(&out[..8], &36u64.to_le_bytes());
    assert_eq!(&out[8..16], &33u64.to_le_bytes());
    assert_eq!(&out[16..24], &10u64.to_le_bytes());
    assert_eq!(&out[24..60], &to_bytes(&meta)[..]);
    assert_eq!(&out[60..68], &1u64.to_le_bytes());
    assert_eq!(&out[93..], &[2, 0, 0, 0, 0, 0, 0, 0, 7, 9]);

    let (laid, sizes) = pak::builder::lay_out(&meta, &directory, &vec![7, 9]).unwrap();
    assert_eq!(laid, out);
    assert_eq!(sizes, sizing);
}
