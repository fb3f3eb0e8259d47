use sli::error::Error;
use sli::hex::{digit_of, hex_char, hex_chars, parse_hex_from};
use sli::labels::{deserialize, serialize, set_labels, LabelRegistry};
use sli::strings::{chars_of, string_from, trim_bounds, whitespace};
use sli::text::{from_text, to_text, TextRecord};
use sli::tone::SliEntry;

fn entry(tone_name: u64, nus3bank_id: u32, tone_id: u32) -> SliEntry {
    SliEntry { tone_name, nus3bank_id, tone_id }
}

fn reference_parse(s: &str) -> Option<u64> {
    if s.starts_with("0x") {
        u64::from_str_radix(s.trim_start_matches("0x"), 16).ok()
    } else {
        Some(hash40::hash40(s).0)
    }
}

#[test]
fn labels_hash_as_the_game_hashes_them() {
    assert_eq!(deserialize("damage_max"), Ok(0x0a_a3cb_8810));
    assert_eq!(deserialize("a"), Ok(0x01_e8b7_be43));
    assert_eq!(deserialize("A"), Ok(0x01_e8b7_be43));
    assert_eq!(deserialize(""), Ok(0));
    assert_eq!(deserialize("x0"), Ok(hash40::hash40("x0").0));
    assert_eq!(deserialize("0X12"), Ok(hash40::hash40("0X12").0));
    assert_eq!(deserialize(" 0x12"), Ok(hash40::hash40(" 0x12").0));
}

#[test]
fn hex_literals_parse_to_their_value() {
    assert_eq!(deserialize("0x1234"), Ok(0x1234));
    assert_eq!(deserialize("0x0"), Ok(0));
    assert_eq!(deserialize("0xABCDEF"), Ok(0xabcdef));
    assert_eq!(deserialize("0xabcdef0123456789"), Ok(0xabcd_ef01_2345_6789));
    assert_eq!(deserialize("0xffffffffffffffff"), Ok(u64::MAX));
    assert_eq!(deserialize("0x0000000000000000000001"), Ok(1));
    assert_eq!(deserialize("0x+1f"), Ok(0x1f));
    assert_eq!(deserialize("0x0x10"), Ok(0x10));
    assert_eq!(deserialize("0x0x0x0"), Ok(0));
}

#[test]
fn bad_hex_literals_are_text_parse_errors() {
    for bad in [
        "0x",
        "0xg",
        "0x12 ",
        "0x 12",
        "0x-1",
        "0x+",
        "0x++1",
        "0x1_0",
        "0x10000000000000000",
        "0xfffffffffffffffff",
        "0x0x",
        "0x1x0",
        "0x\u{ff11}",
    ] {
        assert_eq!(deserialize(bad), Err(Error::TextParseError), "{}", bad);
    }
}

#[test]
fn parsing_agrees_with_the_standard_library() {
    let samples = [
        "", "0", "x", "0x", "0x0", "0x00", "0xf", "0xF", "0x+f", "0x+", "0x-f", "0x0x", "0x0xf",
        "0x0x0xff", "0xx", "0x0X1", "0xdeadbeef", "0xDEADBEEF", "0xffffffffffffffff",
        "0x10000000000000000", "0x0ffffffffffffffff", "0x123456789abcdef01", "hello", "0y12",
        "0x12\n", "0x\u{e9}", "0x1\u{660}", "se_common_step", "0x7fffffffffffffff0",
    ];
    for s in samples {
        assert_eq!(deserialize(s).ok(), reference_parse(s), "{:?}", s);
    }
}

#[test]
fn hex_digits_and_parsing_pieces() {
    assert_eq!(digit_of('0'), Some(0));
    assert_eq!(digit_of('9'), Some(9));
    assert_eq!(digit_of('a'), Some(10));
    assert_eq!(digit_of('F'), Some(15));
    assert_eq!(digit_of('g'), None);
    assert_eq!(digit_of('/'), None);
    assert_eq!(digit_of(':'), None);
    for c in (0..=0x10ffffu32).filter_map(char::from_u32) {
        assert_eq!(digit_of(c).map(u32::from), c.to_digit(16));
    }
    for d in 0..16u8 {
        assert_eq!(Some(hex_char(d)), char::from_digit(u32::from(d), 16));
    }
    let chars: Vec<char> = "zz+1F".chars().collect();
    assert_eq!(parse_hex_from(&chars, 2), Some(0x1f));
    assert_eq!(parse_hex_from(&chars, 3), Some(0x1f));
    assert_eq!(parse_hex_from(&chars, 0), None);
    assert_eq!(parse_hex_from(&chars, 5), None);
}

#[test]
fn names_without_a_label_are_written_as_literals() {
    let labels = LabelRegistry::new();
    assert_eq!(serialize(&0x1234, &labels), "0x1234");
    assert_eq!(serialize(&0, &labels), "0x0");
    assert_eq!(serialize(&0xf, &labels), "0xf");
    assert_eq!(serialize(&0x10, &labels), "0x10");
    assert_eq!(serialize(&0xABCDEF, &labels), "0xabcdef");
    assert_eq!(serialize(&u64::MAX, &labels), "0xffffffffffffffff");
    for v in [1u64, 9, 10, 15, 16, 255, 256, 0x0a_a3cb_8810, 1 << 63, u64::MAX - 1] {
        assert_eq!(serialize(&v, &labels), format!("{:#x}", v));
        let chars: String = hex_chars(v).into_iter().collect();
        assert_eq!(chars, format!("{:#x}", v));
    }
}

#[test]
fn literal_parsed_and_written_is_the_normal_form() {
    let labels = LabelRegistry::new();
    for (text, normal) in [
        ("0x1234", "0x1234"),
        ("0x00AB", "0xab"),
        ("0xDEADBEEF", "0xdeadbeef"),
        ("0x+7", "0x7"),
        ("0x0", "0x0"),
        ("0xffffffffffffffff", "0xffffffffffffffff"),
    ] {
        let name = deserialize(text).unwrap();
        assert_eq!(serialize(&name, &labels), normal);
        assert_eq!(deserialize(normal), Ok(name));
    }
    for v in [0u64, 1, 0x1234, 0x0a_a3cb_8810, u64::MAX] {
        assert_eq!(deserialize(&serialize(&v, &labels)), Ok(v));
    }
}

#[test]
fn loaded_labels_resolve_to_their_lines() {
    let labels = set_labels("damage_max\nse_common_step\nbgm_crs2_01_menu");
    for line in ["damage_max", "se_common_step", "bgm_crs2_01_menu"] {
        let name = hash40::hash40(line).0;
        assert_eq!(serialize(&name, &labels), line);
        assert_eq!(deserialize(&serialize(&name, &labels)), Ok(name));
    }
    assert_eq!(serialize(&0x0a_a3cb_8810, &labels), "damage_max");
    assert_eq!(serialize(&0x0a_a3cb_8811, &labels), "0xaa3cb8811");
    assert_eq!(serialize(&0, &labels), "0x0");
}

#[test]
fn blank_lines_give_no_label() {
    let labels = set_labels("\n  \n\t\r\nfoo\n\n");
    assert_eq!(serialize(&0, &labels), "0x0");
    assert_eq!(serialize(&hash40::hash40("foo").0, &labels), "foo");
    assert_eq!(serialize(&hash40::hash40("  ").0, &labels), format!("{:#x}", hash40::hash40("  ").0));
    let none = set_labels("");
    assert_eq!(serialize(&0, &none), "0x0");
}

#[test]
fn a_line_is_hashed_trimmed_and_kept_as_it_stands() {
    let labels = set_labels("  bar \r\nbaz\r\n\u{3000}qux\u{a0}");
    assert_eq!(serialize(&hash40::hash40("bar").0, &labels), "  bar \r");
    assert_eq!(serialize(&hash40::hash40("baz").0, &labels), "baz\r");
    assert_eq!(serialize(&hash40::hash40("qux").0, &labels), "\u{3000}qux\u{a0}");
    let with_cr = hash40::hash40("baz\r").0;
    assert_eq!(serialize(&with_cr, &labels), format!("{:#x}", with_cr));
}

#[test]
fn a_later_line_of_the_same_hash_replaces_the_earlier() {
    let labels = set_labels("a\nfoo\nA");
    assert_eq!(serialize(&0x01_e8b7_be43, &labels), "A");
    assert_eq!(serialize(&hash40::hash40("foo").0, &labels), "foo");
    let labels = set_labels("A\nfoo\na");
    assert_eq!(serialize(&0x01_e8b7_be43, &labels), "a");
}

#[test]
fn registries_are_independent() {
    let one = set_labels("damage_max");
    let two = set_labels("se_common_step");
    let name = hash40::hash40("damage_max").0;
    assert_eq!(serialize(&name, &one), "damage_max");
    assert_eq!(serialize(&name, &two), "0xaa3cb8810");
}

#[test]
fn whitespace_is_what_the_standard_library_calls_so() {
    for c in (0..=0x10ffffu32).filter_map(char::from_u32) {
        assert_eq!(whitespace(c), c.is_whitespace(), "{:?}", c);
    }
}

#[test]
fn trimming_agrees_with_the_standard_library() {
    for s in [
        "",
        " ",
        "abc",
        "  abc",
        "abc  ",
        " \t a b \r\n",
        "\u{2003}x\u{2028}",
        "\u{feff}x",
        "   ",
        "a",
        "\u{85}\u{1680}mid dle\u{205f}\u{202f}",
    ] {
        let chars = chars_of(s);
        assert_eq!(chars, s.chars().collect::<Vec<char>>());
        let (a, b) = trim_bounds(&chars, 0, chars.len());
        assert_eq!(string_from(&chars, a, b), s.trim(), "{:?}", s);
    }
    let chars = chars_of("ab  cd  ef");
    assert_eq!(trim_bounds(&chars, 2, 8), (4, 6));
    assert_eq!(trim_bounds(&chars, 2, 4), (4, 4));
    assert_eq!(string_from(&chars, 3, 7), " cd ");
    assert_eq!(string_from(&chars, 5, 5), "");
}

#[test]
fn records_are_written_with_labels_where_there_are_some() {
    let labels = set_labels("damage_max");
    let records = vec![entry(0x0a_a3cb_8810, 1, 2), entry(0x1234, 3, 4)];
    let text = to_text(&records, &labels);
    assert_eq!(text.len(), 2);
    assert_eq!(text[0].name, "damage_max");
    assert_eq!(text[0].record, records[0]);
    assert_eq!(text[1].name, "0x1234");
    assert_eq!(text[1].record, records[1]);
    assert_eq!(from_text(&text), Ok(records));
}

#[test]
fn text_names_decide_the_names_of_the_records() {
    let text = vec![
        TextRecord { name: "damage_max".to_string(), record: entry(0, 1, 2) },
        TextRecord { name: "0xFF".to_string(), record: entry(77, 3, 4) },
    ];
    assert_eq!(from_text(&text), Ok(vec![entry(0x0a_a3cb_8810, 1, 2), entry(0xff, 3, 4)]));
    let none: Vec<TextRecord<SliEntry>> = Vec::new();
    assert_eq!(from_text(&none), Ok(Vec::new()));
}

#[test]
fn one_bad_literal_refuses_the_whole_text() {
    let text = vec![
        TextRecord { name: "damage_max".to_string(), record: entry(0, 1, 2) },
        TextRecord { name: "0xnope".to_string(), record: entry(0, 3, 4) },
        TextRecord { name: "0x1".to_string(), record: entry(0, 5, 6) },
    ];
    assert_eq!(from_text(&text), Err(Error::TextParseError));
}

#[test]
fn binary_to_text_to_binary_keeps_the_content() {
    let mut bytes = b"SLI\0".to_vec();
    bytes.extend_from_slice(&3u32.to_le_bytes());
    for (name, bank, id) in
        [(hash40::hash40("se_common_step").0, 1u32, 2u32), (0x1234, 3, 4), (0x0a_a3cb_8810, 5, 6)]
    {
        bytes.extend_from_slice(&name.to_le_bytes());
        bytes.extend_from_slice(&bank.to_le_bytes());
        bytes.extend_from_slice(&id.to_le_bytes());
    }
    let labels = set_labels("damage_max\nse_common_step\n");
    let file = sli::tone::SliFile::read(&bytes).unwrap();
    let text = to_text(&file.entries, &labels);
    assert_eq!(text[0].name, "se_common_step");
    assert_eq!(text[1].name, "0x1234");
    assert_eq!(text[2].name, "damage_max");
    let back = sli::tone::SliFile { entries: from_text(&text).unwrap() };
    assert_eq!(back.entries, file.entries);
    let mut first = Vec::new();
    file.write(&mut first);
    let mut second = Vec::new();
    back.write(&mut second);
    assert_eq!(first, second);
}

#[test]
fn loading_agrees_with_splitting_and_trimming_by_the_standard_library() {
    let contents = "damage_max\r\n  padded \n\n\t\nA\na\n0x12\nlast line\u{a0}";
    let mut expected = std::collections::HashMap::new();
    for line in contents.split("\n") {
        if !line.trim().is_empty() {
            expected.insert(hash40::hash40(line.trim()).0, line.to_owned());
        }
    }
    assert_eq!(expected.len(), 5);
    let labels = set_labels(contents);
    for (name, line) in &expected {
        assert_eq!(&serialize(name, &labels), line);
    }
    for line in ["missing", "damage_max\r", "  padded ", ""] {
        let name = hash40::hash40(line).0;
        if !expected.contains_key(&name) {
            assert_eq!(serialize(&name, &labels), format!("{:#x}", name));
        }
    }
}
