use sli::bgm::{BgmPropertyEntry, BgmPropertyFile};
use sli::error::Error;
use sli::le::{get_u32, get_u64, put_u32, put_u64};
use sli::order::sort_by_name;
use sli::record::{read_container, write_container, Record};
use sli::tone::{SliEntry, SliFile};

fn entry(tone_name: u64, nus3bank_id: u32, tone_id: u32) -> SliEntry {
    SliEntry { tone_name, nus3bank_id, tone_id }
}

fn tone_bytes(count: u32, entries: &[(u64, u32, u32)]) -> Vec<u8> {
    let mut bytes = b"SLI\0".to_vec();
    bytes.extend_from_slice(&count.to_le_bytes());
    for (name, bank, id) in entries {
        bytes.extend_from_slice(&name.to_le_bytes());
        bytes.extend_from_slice(&bank.to_le_bytes());
        bytes.extend_from_slice(&id.to_le_bytes());
    }
    bytes
}

fn written(file: &SliFile) -> Vec<u8> {
    let mut out = Vec::new();
    file.write(&mut out);
    out
}

#[test]
fn little_endian_numbers_have_exact_bytes() {
    let mut out = vec![0xee];
    put_u32(&mut out, 0x1234_5678);
    put_u64(&mut out, 0x0102_0304_0506_0708);
    assert_eq!(
        out,
        vec![0xee, 0x78, 0x56, 0x34, 0x12, 0x08, 0x07, 0x06, 0x05, 0x04, 0x03, 0x02, 0x01]
    );
    assert_eq!(get_u32(&out, 1), 0x1234_5678);
    assert_eq!(get_u64(&out, 5), 0x0102_0304_0506_0708);
    assert_eq!(get_u32(&[0xff, 0xff, 0xff, 0xff], 0), u32::MAX);
    assert_eq!(get_u64(&[0xff; 8], 0), u64::MAX);
}

#[test]
fn single_tone_record_end_to_end() {
    let mut bytes = b"SLI\0".to_vec();
    bytes.extend_from_slice(&1u32.to_le_bytes());
    bytes.extend_from_slice(&0x1234u64.to_le_bytes());
    bytes.extend_from_slice(&1u32.to_le_bytes());
    bytes.extend_from_slice(&2u32.to_le_bytes());
    assert_eq!(
        bytes,
        vec![
            0x53, 0x4c, 0x49, 0x00, 0x01, 0, 0, 0, 0x34, 0x12, 0, 0, 0, 0, 0, 0, 0x01, 0, 0, 0,
            0x02, 0, 0, 0
        ]
    );
    let file = SliFile::read(&bytes).unwrap();
    assert_eq!(file.entries, vec![entry(0x1234, 1, 2)]);
    assert_eq!(written(&file), bytes);
}

#[test]
fn tone_record_is_sixteen_bytes() {
    assert_eq!(SliEntry::width(), 16);
    let mut out = Vec::new();
    entry(0x0a_a3cb_8810, 0x0102_0304, 7).encode(&mut out);
    assert_eq!(
        out,
        vec![0x10, 0x88, 0xcb, 0xa3, 0x0a, 0, 0, 0, 0x04, 0x03, 0x02, 0x01, 7, 0, 0, 0]
    );
    assert_eq!(SliEntry::decode(&out, 0), entry(0x0a_a3cb_8810, 0x0102_0304, 7));
    assert_eq!(entry(5, 6, 7).name(), 5);
    assert_eq!(entry(5, 6, 7).with_name(9), entry(9, 6, 7));
}

#[test]
fn truncated_mid_record_is_truncated_input() {
    let full = tone_bytes(1, &[(0x1234, 1, 2)]);
    let cut = &full[..8 + 12];
    assert_eq!(SliFile::read(cut).unwrap_err(), Error::TruncatedInput);
    for len in 4..full.len() {
        assert_eq!(SliFile::read(&full[..len]).unwrap_err(), Error::TruncatedInput);
    }
    assert!(SliFile::read(&full).is_ok());
}

#[test]
fn count_beyond_the_stream_is_truncated_input() {
    let bytes = tone_bytes(3, &[(1, 1, 1), (2, 2, 2)]);
    assert_eq!(SliFile::read(&bytes).unwrap_err(), Error::TruncatedInput);
    let bytes = tone_bytes(u32::MAX, &[(1, 1, 1)]);
    assert_eq!(SliFile::read(&bytes).unwrap_err(), Error::TruncatedInput);
}

#[test]
fn wrong_magic_is_magic_mismatch() {
    let mut bytes = tone_bytes(1, &[(0x1234, 1, 2)]);
    bytes[2] = b'J';
    assert_eq!(SliFile::read(&bytes).unwrap_err(), Error::MagicMismatch);
    assert_eq!(SliFile::read(b"- tone_name: foo\n").unwrap_err(), Error::MagicMismatch);
    assert_eq!(SliFile::read(b"").unwrap_err(), Error::MagicMismatch);
    assert_eq!(SliFile::read(b"SLI").unwrap_err(), Error::MagicMismatch);
    assert_eq!(SliFile::read(b"PMGB\0\0\0\0").unwrap_err(), Error::MagicMismatch);
    assert_eq!(BgmPropertyFile::read(b"SLI\0\0\0\0\0").unwrap_err(), Error::MagicMismatch);
    assert_eq!(
        sli::tone_v1::SliFile::read(b"SLI\0\x02\0\0\0\0\0\0\0").unwrap_err(),
        Error::MagicMismatch
    );
}

#[test]
fn empty_container_round_trips() {
    let bytes = tone_bytes(0, &[]);
    let file = SliFile::read(&bytes).unwrap();
    assert!(file.entries.is_empty());
    assert_eq!(written(&file), bytes);
    assert_eq!(written(&SliFile { entries: Vec::new() }), b"SLI\0\0\0\0\0".to_vec());
}

#[test]
fn read_keeps_the_order_of_the_stream() {
    let bytes = tone_bytes(3, &[(30, 1, 1), (10, 2, 2), (20, 3, 3)]);
    let file = SliFile::read(&bytes).unwrap();
    assert_eq!(file.entries, vec![entry(30, 1, 1), entry(10, 2, 2), entry(20, 3, 3)]);
}

#[test]
fn write_sorts_by_name_and_leaves_the_entries_alone() {
    let file = SliFile { entries: vec![entry(30, 1, 1), entry(10, 2, 2), entry(20, 3, 3)] };
    let out = written(&file);
    assert_eq!(out, tone_bytes(3, &[(10, 2, 2), (20, 3, 3), (30, 1, 1)]));
    assert_eq!(file.entries, vec![entry(30, 1, 1), entry(10, 2, 2), entry(20, 3, 3)]);
}

#[test]
fn entries_of_one_name_keep_their_order() {
    let entries =
        vec![entry(7, 3, 0), entry(5, 9, 9), entry(7, 1, 0), entry(5, 1, 1), entry(7, 2, 0)];
    let sorted = sort_by_name(&entries);
    assert_eq!(
        sorted,
        vec![entry(5, 9, 9), entry(5, 1, 1), entry(7, 3, 0), entry(7, 1, 0), entry(7, 2, 0)]
    );
    let mut expected = entries.clone();
    expected.sort_by_key(|e| e.tone_name);
    assert_eq!(sorted, expected);
}

#[test]
fn sorting_agrees_with_a_stable_sort() {
    let mut state: u64 = 0x9e37_79b9_7f4a_7c15;
    let mut entries = Vec::new();
    for i in 0..500u32 {
        state = state.wrapping_mul(6364136223846793005).wrapping_add(1442695040888963407);
        entries.push(entry((state >> 58) | ((state >> 20) & 0x300), i, i));
    }
    let mut expected = entries.clone();
    expected.sort_by_key(|e| e.tone_name);
    assert_eq!(sort_by_name(&entries), expected);
    assert_eq!(sort_by_name(&expected), expected);
}

#[test]
fn decode_then_encode_reproduces_sorted_input() {
    let bytes = tone_bytes(3, &[(1, 9, 9), (2, 8, 8), (u64::MAX, 7, 7)]);
    assert_eq!(written(&SliFile::read(&bytes).unwrap()), bytes);
}

#[test]
fn decode_sort_encode_equals_decode_encode() {
    let bytes = tone_bytes(4, &[(9, 1, 1), (3, 2, 2), (9, 0, 0), (1, 4, 4)]);
    let file = SliFile::read(&bytes).unwrap();
    let sorted = SliFile { entries: sort_by_name(&file.entries) };
    assert_eq!(written(&sorted), written(&file));
    assert_eq!(written(&file), tone_bytes(4, &[(1, 4, 4), (3, 2, 2), (9, 1, 1), (9, 0, 0)]));
    let again = SliFile::read(&written(&file)).unwrap();
    assert_eq!(again.entries, sorted.entries);
}

#[test]
fn written_count_is_the_number_of_entries() {
    for n in [0u32, 1, 2, 17, 300] {
        let entries: Vec<SliEntry> = (0..n).map(|i| entry(u64::from(n - i), i, i)).collect();
        let out = written(&SliFile { entries });
        assert_eq!(get_u32(&out, 4), n);
        assert_eq!(out.len(), 8 + 16 * n as usize);
    }
}

#[test]
fn write_appends_to_what_the_writer_holds() {
    let mut out = vec![1, 2, 3];
    SliFile { entries: vec![entry(1, 2, 3)] }.write(&mut out);
    assert_eq!(&out[..3], &[1, 2, 3]);
    assert_eq!(&out[3..], &tone_bytes(1, &[(1, 2, 3)])[..]);
}

#[test]
fn bytes_behind_the_last_record_are_not_read() {
    let mut bytes = tone_bytes(1, &[(0x1234, 1, 2)]);
    bytes.extend_from_slice(&[0xaa, 0xbb, 0xcc]);
    let file = SliFile::read(&bytes).unwrap();
    assert_eq!(file.entries, vec![entry(0x1234, 1, 2)]);
    assert_eq!(written(&file), bytes[..24].to_vec());
}

#[test]
fn versioned_container_has_an_eight_byte_magic() {
    let mut bytes = b"SLI\0\x01\0\0\0".to_vec();
    bytes.extend_from_slice(&2u32.to_le_bytes());
    for (name, bank, id) in [(0x20u64, 1u32, 2u32), (0x10, 3, 4)] {
        bytes.extend_from_slice(&name.to_le_bytes());
        bytes.extend_from_slice(&bank.to_le_bytes());
        bytes.extend_from_slice(&id.to_le_bytes());
    }
    let file = sli::tone_v1::SliFile::read(&bytes).unwrap();
    assert_eq!(file.entries(), &vec![entry(0x20, 1, 2), entry(0x10, 3, 4)]);
    let mut out = Vec::new();
    file.write(&mut out);
    assert_eq!(&out[..12], &bytes[..12]);
    assert_eq!(&out[12..28], &bytes[28..44]);
    assert_eq!(&out[28..44], &bytes[12..28]);
    assert_eq!(
        sli::tone_v1::SliFile::read(&bytes[..30]).unwrap_err(),
        Error::TruncatedInput
    );
    assert_eq!(sli::tone_v1::SliFile::read(&bytes[..7]).unwrap_err(), Error::MagicMismatch);
    assert_eq!(sli::tone_v1::SliFile::read(&bytes[..10]).unwrap_err(), Error::TruncatedInput);
}

#[test]
fn versioned_container_round_trips() {
    let mut bytes = b"SLI\0\x01\0\0\0".to_vec();
    bytes.extend_from_slice(&2u32.to_le_bytes());
    for (name, bank, id) in [(0x10u64, 3u32, 4u32), (0x20, 1, 2)] {
        bytes.extend_from_slice(&name.to_le_bytes());
        bytes.extend_from_slice(&bank.to_le_bytes());
        bytes.extend_from_slice(&id.to_le_bytes());
    }
    let file = sli::tone_v1::SliFile::read(&bytes).unwrap();
    let mut round_trip = Vec::new();
    file.write(&mut round_trip);
    assert_eq!(bytes, round_trip);
}

#[test]
fn new_entries_and_entries_mut() {
    let mut file = sli::tone_v1::SliFile::new(vec![entry(2, 0, 0)]);
    assert_eq!(file.entries(), &vec![entry(2, 0, 0)]);
    file.entries_mut().push(entry(1, 5, 6));
    file.entries_mut()[0].tone_id = 9;
    assert_eq!(file.entries(), &vec![entry(2, 0, 9), entry(1, 5, 6)]);
    let mut out = Vec::new();
    file.write(&mut out);
    assert_eq!(get_u32(&out, 8), 2);
    assert_eq!(get_u64(&out, 12), 1);
    assert_eq!(get_u64(&out, 28), 2);
    assert_eq!(file.entries(), &vec![entry(2, 0, 9), entry(1, 5, 6)]);
}

fn bgm_entry(name_id: u64, base: u32, padding: u32) -> BgmPropertyEntry {
    BgmPropertyEntry {
        name_id,
        unknown1: base,
        loop_start_sample: base + 1,
        unknown_sample: base + 2,
        loop_end_sample: base + 3,
        unknown2: base + 4,
        total_samples: base + 5,
        padding,
    }
}

#[test]
fn bgm_record_is_thirty_six_bytes_in_field_order() {
    assert_eq!(BgmPropertyEntry::width(), 36);
    let mut out = Vec::new();
    bgm_entry(0x0807_0605_0403_0201, 0x10, 0xdead_beef).encode(&mut out);
    assert_eq!(
        out,
        vec![
            1, 2, 3, 4, 5, 6, 7, 8, 0x10, 0, 0, 0, 0x11, 0, 0, 0, 0x12, 0, 0, 0, 0x13, 0, 0, 0,
            0x14, 0, 0, 0, 0x15, 0, 0, 0, 0xef, 0xbe, 0xad, 0xde
        ]
    );
    assert_eq!(
        BgmPropertyEntry::decode(&out, 0),
        bgm_entry(0x0807_0605_0403_0201, 0x10, 0xdead_beef)
    );
}

#[test]
fn fresh_bgm_entry_has_zero_padding() {
    let fresh = BgmPropertyEntry::new(1, 2, 3, 4, 5, 6, 7);
    assert_eq!(
        fresh,
        BgmPropertyEntry {
            name_id: 1,
            unknown1: 2,
            loop_start_sample: 3,
            unknown_sample: 4,
            loop_end_sample: 5,
            unknown2: 6,
            total_samples: 7,
            padding: 0,
        }
    );
    let mut out = Vec::new();
    fresh.encode(&mut out);
    assert_eq!(&out[32..], &[0, 0, 0, 0]);
}

#[test]
fn bgm_container_keeps_order_and_padding() {
    let file = BgmPropertyFile {
        entries: vec![bgm_entry(90, 1, 0), bgm_entry(10, 2, 0x0403_0201), bgm_entry(50, 3, 7)],
    };
    let mut bytes = Vec::new();
    file.write(&mut bytes);
    assert_eq!(&bytes[..4], b"PMGB");
    assert_eq!(get_u32(&bytes, 4), 3);
    assert_eq!(bytes.len(), 8 + 3 * 36);
    assert_eq!(get_u64(&bytes, 8), 90);
    assert_eq!(get_u64(&bytes, 8 + 36), 10);
    assert_eq!(&bytes[8 + 36 + 32..8 + 72], &[1, 2, 3, 4]);
    let back = BgmPropertyFile::read(&bytes).unwrap();
    assert_eq!(back.entries, file.entries);
    let mut again = Vec::new();
    back.write(&mut again);
    assert_eq!(again, bytes);
}

#[test]
fn bgm_truncated_and_loop_points_unchecked() {
    let file = BgmPropertyFile {
        entries: vec![BgmPropertyEntry::new(1, 0, 500, 0, 100, 0, 50)],
    };
    let mut bytes = Vec::new();
    file.write(&mut bytes);
    let back = BgmPropertyFile::read(&bytes).unwrap();
    assert_eq!(back.entries[0].loop_start_sample, 500);
    assert_eq!(back.entries[0].loop_end_sample, 100);
    assert_eq!(
        BgmPropertyFile::read(&bytes[..bytes.len() - 1]).unwrap_err(),
        Error::TruncatedInput
    );
    assert_eq!(BgmPropertyFile::read(b"PMGB\x01\0").unwrap_err(), Error::TruncatedInput);
}

#[test]
fn generic_container_takes_any_magic() {
    let records = vec![entry(3, 1, 1), entry(1, 2, 2)];
    let mut out = Vec::new();
    write_container(b"XY", &records, &mut out);
    assert_eq!(&out[..2], b"XY");
    assert_eq!(out.len(), 2 + 4 + 32);
    let back: Vec<SliEntry> = read_container(b"XY", &out).unwrap();
    assert_eq!(back, records);
    let none: Result<Vec<SliEntry>, Error> = read_container(b"XZ", &out);
    assert_eq!(none.unwrap_err(), Error::MagicMismatch);
    let empty: Vec<SliEntry> = read_container(b"", &[0, 0, 0, 0]).unwrap();
    assert!(empty.is_empty());
}

#[test]
fn sorting_a_large_reversed_container() {
    let n: u32 = 200_000;
    let entries: Vec<SliEntry> = (0..n).map(|i| entry(u64::from(n - i) / 2, i, i)).collect();
    let sorted = sort_by_name(&entries);
    let mut expected = entries.clone();
    expected.sort_by_key(|e| e.tone_name);
    assert_eq!(sorted, expected);
    let out = written(&SliFile { entries });
    assert_eq!(out.len(), 8 + 16 * n as usize);
    assert_eq!(SliFile::read(&out).unwrap().entries, expected);
}

#[test]
fn sorting_nothing_and_one() {
    assert_eq!(sort_by_name::<SliEntry>(&Vec::new()), Vec::new());
    assert_eq!(sort_by_name(&vec![entry(9, 1, 1)]), vec![entry(9, 1, 1)]);
    assert_eq!(sort_by_name(&vec![entry(9, 1, 1), entry(9, 0, 0)]), vec![entry(9, 1, 1), entry(9, 0, 0)]);
    assert_eq!(sort_by_name(&vec![entry(9, 1, 1), entry(8, 0, 0)]), vec![entry(8, 0, 0), entry(9, 1, 1)]);
}
