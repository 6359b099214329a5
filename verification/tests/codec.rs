use pmd_code_table::{
    CodeTable, CodeTableDecodeError, CodeTableEntryFile, CodeToTextError, TextToCodeError,
};

fn entry(label: &str, value: u16, flags: u16, lenght: u16) -> CodeTableEntryFile {
    CodeTableEntryFile { string: label.to_string(), value, flags, lenght, unk: 0 }
}

fn table() -> CodeTable {
    CodeTable::from_entries(vec![
        entry("hero", 0xA100, 0, 0),
        entry("color", 0x0100, 1, 0),
        entry("speed:", 0x0200, 1, 0),
        entry("value:", 0xB000, 1, 2),
        entry("wide:", 0xB100, 1, 3),
        entry("kind:fire", 0xA200, 0, 0),
        entry("wrap:", 0xFFFF, 1, 0),
        entry("old", 0xA300, 0, 0),
        entry("new", 0xA300, 0, 0),
        entry("twice", 0xA400, 0, 0),
        entry("twice", 0xA401, 0, 0),
    ])
}

fn units_of(text: &str) -> Vec<u16> {
    text.encode_utf16().collect()
}

#[test]
fn entries_keep_their_order() {
    let t = table();
    let entries = t.entries();
    assert_eq!(entries.len(), 11);
    assert_eq!(entries[0].string, "hero");
    assert_eq!(entries[3].value, 0xB000);
    assert_eq!(entries[10].value, 0xA401);
}

#[test]
fn decode_plain_text() {
    let t = table();
    let index = t.generate_code_to_text();
    assert_eq!(index.decode(&units_of("Hello, world!")).unwrap(), "Hello, world!");
    assert_eq!(index.decode(&[]).unwrap(), "");
}

#[test]
fn decode_placeholder_without_argument() {
    let t = table();
    let index = t.generate_code_to_text();
    assert_eq!(index.decode(&[0xA100]).unwrap(), "[hero]");
    assert_eq!(index.decode(&[0x41, 0xA200, 0x42]).unwrap(), "A[kind:fire]B");
}

#[test]
fn decode_every_offset_of_a_block() {
    let t = table();
    let index = t.generate_code_to_text();
    for offset in 0u16..=255 {
        let expected = format!("[color{}]", offset);
        assert_eq!(index.decode(&[0x0100 | offset]).unwrap(), expected);
    }
}

#[test]
fn decode_color_five() {
    let t = CodeTable::from_entries(vec![entry("color", 0x0100, 1, 0)]);
    let index = t.generate_code_to_text();
    assert_eq!(index.decode(&[0x0100 | 5]).unwrap(), "[color5]");
}

#[test]
fn encode_color_five_needs_the_colon_in_the_label() {
    let t = CodeTable::from_entries(vec![entry("color", 0x0100, 1, 0)]);
    let index = t.generate_text_to_code();
    match index.encode("[color:5]") {
        Err(TextToCodeError::UnknownPlaceholder(label)) => assert_eq!(label, "color:"),
        other => panic!("{:?}", other),
    }
    let t = CodeTable::from_entries(vec![entry("color:", 0x0100, 1, 0)]);
    assert_eq!(t.generate_text_to_code().encode("[color:5]").unwrap(), vec![0x0105]);
    assert_eq!(t.generate_code_to_text().decode(&[0x0105]).unwrap(), "[color:5]");
}

#[test]
fn decode_packed_words() {
    let t = table();
    let index = t.generate_code_to_text();
    assert_eq!(index.decode(&[0xB000, 0x0005, 0x0001]).unwrap(), "[value:65541]");
    assert_eq!(index.decode(&[0xB000, 0xFFFF, 0xFFFF]).unwrap(), "[value:4294967295]");
    assert_eq!(index.decode(&[0xB004, 0x0000, 0x0000, 0x41]).unwrap(), "[value:0]A");
}

#[test]
fn decode_drops_words_past_the_second() {
    let t = table();
    let index = t.generate_code_to_text();
    assert_eq!(index.decode(&[0xB100, 1, 2, 3]).unwrap(), "[wide:131073]");
}

#[test]
fn decode_incomplete_data() {
    let t = table();
    let index = t.generate_code_to_text();
    assert!(matches!(
        index.decode(&[0xB000, 0x0005]),
        Err(CodeToTextError::FinalNotLongEnoughtForData)
    ));
    assert!(matches!(
        index.decode(&[0x41, 0xB000]),
        Err(CodeToTextError::FinalNotLongEnoughtForData)
    ));
}

#[test]
fn decode_escapes_brackets_and_backslashes() {
    let t = table();
    let index = t.generate_code_to_text();
    assert_eq!(index.decode(&units_of("a[b\\c]")).unwrap(), "a\\[b\\\\c]");
}

#[test]
fn decode_surrogate_pair() {
    let t = table();
    let index = t.generate_code_to_text();
    assert_eq!(index.decode(&[0xD83D, 0xDE00]).unwrap(), "\u{1F600}");
    assert_eq!(index.decode(&[0xD800, 0xDC00]).unwrap(), "\u{10000}");
    assert_eq!(index.decode(&[0xDBFF, 0xDFFF]).unwrap(), "\u{10FFFF}");
}

#[test]
fn decode_trailing_high_surrogate() {
    let t = table();
    let index = t.generate_code_to_text();
    match index.decode(&[0x41, 0x42, 0xD83D]) {
        Err(CodeToTextError::FinalInvalid(partial, unit)) => {
            assert_eq!(partial, "AB");
            assert_eq!(unit, 0xD83D);
        },
        other => panic!("{:?}", other),
    }
}

#[test]
fn decode_invalid_pair() {
    let t = table();
    let index = t.generate_code_to_text();
    match index.decode(&[0x41, 0xD83D, 0x42]) {
        Err(CodeToTextError::CantDecodeUtf16(_, partial, first, second)) => {
            assert_eq!(partial, "A");
            assert_eq!(first, 0xD83D);
            assert_eq!(second, 0x42);
        },
        other => panic!("{:?}", other),
    }
    assert!(matches!(
        index.decode(&[0xDC00, 0xD800]),
        Err(CodeToTextError::CantDecodeUtf16(_, _, 0xDC00, 0xD800))
    ));
}

#[test]
fn later_record_wins_by_code() {
    let t = table();
    let index = t.generate_code_to_text();
    assert_eq!(index.decode(&[0xA300]).unwrap(), "[new]");
}

#[test]
fn later_record_wins_by_label() {
    let t = table();
    let index = t.generate_text_to_code();
    assert_eq!(index.encode("[twice]").unwrap(), vec![0xA401]);
}

#[test]
fn encode_plain_text() {
    let t = table();
    let index = t.generate_text_to_code();
    assert_eq!(index.encode("Hello]: x").unwrap(), units_of("Hello]: x"));
    assert_eq!(index.encode("").unwrap(), Vec::<u16>::new());
    assert_eq!(index.encode("\u{1F600}").unwrap(), vec![0xD83D, 0xDE00]);
    assert_eq!(index.encode("\u{10000}\u{10FFFF}\u{FFFF}").unwrap(), vec![0xD800, 0xDC00, 0xDBFF, 0xDFFF, 0xFFFF]);
}

#[test]
fn encode_escapes() {
    let t = table();
    let index = t.generate_text_to_code();
    assert_eq!(index.encode("\\[").unwrap(), vec![0x5B]);
    assert_eq!(index.encode("\\\\").unwrap(), vec![0x5C]);
    assert_eq!(index.encode("a\\[b\\\\").unwrap(), vec![0x61, 0x5B, 0x62, 0x5C]);
}

#[test]
fn encode_useless_escape() {
    let t = table();
    let index = t.generate_text_to_code();
    assert!(matches!(index.encode("a\\n"), Err(TextToCodeError::UselessEscape('n'))));
}

#[test]
fn encode_unfinished_escape() {
    let t = table();
    let index = t.generate_text_to_code();
    assert!(matches!(index.encode("abc\\"), Err(TextToCodeError::UnfinishedEscape)));
}

#[test]
fn encode_unclosed_placeholder() {
    let t = table();
    let index = t.generate_text_to_code();
    assert!(matches!(index.encode("a[hero"), Err(TextToCodeError::UnclosedPlaceholder)));
    assert!(matches!(index.encode("["), Err(TextToCodeError::UnclosedPlaceholder)));
}

#[test]
fn encode_empty_placeholder() {
    let t = table();
    let index = t.generate_text_to_code();
    assert!(matches!(index.encode("[]"), Err(TextToCodeError::EmptyPlaceholder)));
}

#[test]
fn encode_too_many_parts() {
    let t = table();
    let index = t.generate_text_to_code();
    match index.encode("[a:b:c]") {
        Err(TextToCodeError::PlaceholderTooMuchPart(parts)) => {
            assert_eq!(parts, vec!["a:".to_string(), "b:".to_string(), "c".to_string()]);
        },
        other => panic!("{:?}", other),
    }
}

#[test]
fn encode_unknown_placeholder() {
    let t = table();
    let index = t.generate_text_to_code();
    match index.encode("[doesnotexist]") {
        Err(TextToCodeError::UnknownPlaceholder(label)) => assert_eq!(label, "doesnotexist"),
        other => panic!("{:?}", other),
    }
    match index.encode("[nobody:3]") {
        Err(TextToCodeError::UnknownPlaceholder(label)) => assert_eq!(label, "nobody:"),
        other => panic!("{:?}", other),
    }
}

#[test]
fn encode_exact_labels() {
    let t = table();
    let index = t.generate_text_to_code();
    assert_eq!(index.encode("[hero]").unwrap(), vec![0xA100]);
    assert_eq!(index.encode("x[kind:fire]y").unwrap(), vec![0x78, 0xA200, 0x79]);
    assert_eq!(index.encode("[speed:]").unwrap(), vec![0x0200]);
}

#[test]
fn encode_inline_argument() {
    let t = table();
    let index = t.generate_text_to_code();
    assert_eq!(index.encode("[speed:7]").unwrap(), vec![0x0207]);
    assert_eq!(index.encode("[speed:+7]").unwrap(), vec![0x0207]);
    assert_eq!(index.encode("[speed:007]").unwrap(), vec![0x0207]);
    assert_eq!(index.encode("[speed:0]").unwrap(), vec![0x0200]);
    assert_eq!(index.encode("[speed:255]").unwrap(), vec![0x02FF]);
}

#[test]
fn encode_inline_argument_wraps() {
    let t = table();
    let index = t.generate_text_to_code();
    assert_eq!(index.encode("[wrap:2]").unwrap(), vec![0x0001]);
}

#[test]
fn encode_argument_out_of_range() {
    let t = table();
    let index = t.generate_text_to_code();
    match index.encode("[speed:256]") {
        Err(TextToCodeError::CantEncodedParameterEmbeddedData(value, label)) => {
            assert_eq!(value, 256);
            assert_eq!(label, "speed:");
        },
        other => panic!("{:?}", other),
    }
}

#[test]
fn encode_invalid_value() {
    let t = table();
    let index = t.generate_text_to_code();
    match index.encode("[speed:x]") {
        Err(TextToCodeError::InvalidValue(_, value, label)) => {
            assert_eq!(value, "x");
            assert_eq!(label, "speed:");
        },
        other => panic!("{:?}", other),
    }
    assert!(matches!(index.encode("[value:4294967296]"), Err(TextToCodeError::InvalidValue(_, _, _))));
    assert!(matches!(index.encode("[value:-1]"), Err(TextToCodeError::InvalidValue(_, _, _))));
    assert!(matches!(index.encode("[value:+]"), Err(TextToCodeError::InvalidValue(_, _, _))));
    assert!(matches!(index.encode("[hero:]"), Err(TextToCodeError::UnknownPlaceholder(_))));
}

#[test]
fn encode_multi_word_argument() {
    let t = table();
    let index = t.generate_text_to_code();
    assert_eq!(index.encode("[value:0]").unwrap(), vec![0xB000]);
    assert_eq!(index.encode("[value:1]").unwrap(), vec![0xB000, 0x0001]);
    assert_eq!(index.encode("[value:5]").unwrap(), vec![0xB004, 0x0005]);
    assert_eq!(index.encode("[value:256]").unwrap(), vec![0xB000, 0x0100]);
    assert_eq!(index.encode("[value:65536]").unwrap(), vec![0xB000, 0x0000, 0x0001]);
    assert_eq!(index.encode("[value:65541]").unwrap(), vec![0xB004, 0x0005, 0x0001]);
    assert_eq!(index.encode("[value:4294967295]").unwrap(), vec![0xB0FE, 0xFFFF, 0xFFFF]);
}

#[test]
fn round_trip_of_literals_escapes_and_exact_labels() {
    let t = table();
    let encoder = t.generate_text_to_code();
    let decoder = t.generate_code_to_text();
    for text in ["plain", "a\\[b\\\\c", "[hero] and [kind:fire]!", "\u{1F600}[new]", "x]y:z"] {
        let once = encoder.encode(text).unwrap();
        let back = decoder.decode(&once).unwrap();
        let twice = encoder.encode(&back).unwrap();
        assert_eq!(once, twice);
    }
}

#[test]
fn entry_offsets_skip_three_and_two() {
    let offsets: Vec<Option<u64>> = (0u64..8).map(|i| Some(i * 16)).collect();
    assert_eq!(CodeTable::entry_offsets(&offsets).unwrap(), vec![48, 64, 80]);
    let five: Vec<Option<u64>> = vec![Some(1), Some(2), Some(3), Some(4), Some(5)];
    assert_eq!(CodeTable::entry_offsets(&five).unwrap(), Vec::<u64>::new());
}

#[test]
fn entry_offsets_too_few() {
    let offsets: Vec<Option<u64>> = vec![Some(0), Some(1), Some(2), Some(3)];
    assert!(matches!(
        CodeTable::entry_offsets(&offsets),
        Err(CodeTableDecodeError::NotEnoughtPointer(4))
    ));
}

#[test]
fn entry_offsets_missing() {
    let offsets: Vec<Option<u64>> = vec![None, None, None, Some(3), None, Some(5), None, None];
    assert!(matches!(
        CodeTable::entry_offsets(&offsets),
        Err(CodeTableDecodeError::CantGetOffsetForPointer(4))
    ));
}

#[test]
fn default_table_is_empty() {
    let t = CodeTable::default();
    assert!(t.entries().is_empty());
    assert_eq!(t.generate_code_to_text().decode(&[0xA100, 0x5B]).unwrap(), "\u{A100}\\[");
    assert!(matches!(
        t.generate_text_to_code().encode("[hero]"),
        Err(TextToCodeError::UnknownPlaceholder(_))
    ));
}

#[test]
fn encode_long_text() {
    let t = table();
    let index = t.generate_text_to_code();
    let text = "ab[hero]".repeat(500);
    let units = index.encode(&text).unwrap();
    assert_eq!(units.len(), 1500);
    assert_eq!(units[2], 0xA100);
    assert_eq!(units[1499], 0xA100);
}

#[test]
fn block_alignment_of_tables() {
    assert!(!table().is_block_aligned());
    assert!(CodeTable::from_entries(vec![entry("color:", 0x0100, 1, 0), entry("hero", 0xA101, 0, 0)])
        .is_block_aligned());
    assert!(CodeTable::default().is_block_aligned());
    assert!(!CodeTable::from_entries(vec![entry("speed:", 0x0201, 1, 0)]).is_block_aligned());
    assert!(CodeTable::from_entries(vec![entry("hero", 0x0201, 0, 0)]).is_block_aligned());
    assert!(CodeTable::from_entries(vec![entry("value:", 0x0201, 1, 2)]).is_block_aligned());
}
