use csv::StringRecord;
use sudachi::entry::{RawLexiconEntry, SplitUnit};
use sudachi::error::DicWriteReason;
use sudachi::lexicon::LexiconReader;
use sudachi::parse::Mode;
use sudachi::primitives::Utf16Writer;
use sudachi::word_id::WordId;

const TOKYO: &str = "東京,1,2,3,東京,名詞,固有名詞,地名,一般,*,*,トウキョウ,東京,*,A,*,*,*\n";

fn utf16(s: &str) -> Vec<u8> {
    let units: Vec<u16> = s.encode_utf16().collect();
    let mut out = vec![units.len() as u8];
    for u in units {
        out.extend_from_slice(&u.to_le_bytes());
    }
    out
}

#[test]
fn reads_one_entry() {
    let mut r = LexiconReader::new();
    assert_eq!(r.read_bytes(TOKYO.as_bytes()).unwrap(), 1);
    let e: &RawLexiconEntry = &r.entries()[0];
    assert_eq!(e.surface(), "東京");
    assert_eq!(e.headword, None);
    assert_eq!(e.headword(), "東京");
    assert_eq!(e.norm_form, None);
    assert_eq!(e.norm_form(), "東京");
    assert_eq!(e.reading.as_deref(), Some("トウキョウ"));
    assert_eq!(e.reading(), "トウキョウ");
    assert_eq!((e.left_id, e.right_id, e.cost), (1, 2, 3));
    assert_eq!(e.pos, 0);
    assert_eq!(e.splitting, Mode::A);
    assert_eq!(e.dic_form, WordId::invalid());
    assert!(e.splits_a.is_empty() && e.splits_b.is_empty());
    assert!(e.word_structure.is_empty() && e.synonym_groups.is_empty());
    assert!(e.should_index());
    let p = r.pos_obj(0).unwrap();
    assert_eq!(p.describe(), "名詞,固有名詞,地名,一般,*,*");
    assert!(r.pos_obj(1).is_none());
}

#[test]
fn pos_ids_in_order_of_first_use() {
    let text = "a,1,1,1,a,名詞,*,*,*,*,*,a,a,*,C,*,*,*\n\
                b,1,1,1,b,動詞,*,*,*,*,*,b,b,*,C,*,*,*\n\
                c,1,1,1,c,名詞,*,*,*,*,*,c,c,*,C,*,*,*\n";
    let mut r = LexiconReader::new();
    assert_eq!(r.read_bytes(text.as_bytes()).unwrap(), 3);
    let ids: Vec<u16> = r.entries().iter().map(|e| e.pos).collect();
    assert_eq!(ids, vec![0, 1, 0]);
    assert_eq!(r.pos_obj(1).unwrap().describe(), "動詞,*,*,*,*,*");
}

#[test]
fn escaped_and_defaulted_fields() {
    let text = "x\\u002cy,-1,0,5,X,名詞,*,*,*,*,*,X,n,U7,B,1/U2,*,3,000001/7\n";
    let mut r = LexiconReader::new();
    assert_eq!(r.read_bytes(text.as_bytes()).unwrap(), 1);
    let e = &r.entries()[0];
    assert_eq!(e.surface(), "x,y");
    assert_eq!(e.headword.as_deref(), Some("X"));
    assert_eq!(e.reading, None);
    assert_eq!(e.reading(), "X");
    assert_eq!(e.norm_form(), "n");
    assert!(!e.should_index());
    assert_eq!(e.dic_form.as_raw(), 0x1000_0007);
    assert_eq!(e.splitting, Mode::B);
    let a: Vec<u32> = e
        .splits_a
        .iter()
        .map(|s| match s {
            SplitUnit::Ref(w) => w.as_raw(),
            SplitUnit::Inline { .. } => panic!("inline"),
        })
        .collect();
    assert_eq!(a, vec![1, 0x1000_0002]);
    assert_eq!(e.word_structure, vec![WordId::from_raw(3)]);
    assert_eq!(e.synonym_groups, vec![1, 7]);
}

#[test]
fn inline_splits() {
    let text = "xy,1,1,1,xy,名詞,*,*,*,*,*,xy,xy,*,C,\"x,動詞,*,*,*,*,*,エックス/y,名詞,*,*,*,*,*,y\",*,*\n";
    let mut r = LexiconReader::new();
    assert_eq!(r.read_bytes(text.as_bytes()).unwrap(), 1);
    let e = &r.entries()[0];
    // the splits are read before the entry's own part of speech
    assert_eq!(e.pos, 1);
    match &e.splits_a[0] {
        SplitUnit::Inline { surface, pos, reading } => {
            assert_eq!(surface, "x");
            assert_eq!(*pos, 0);
            assert_eq!(reading.as_deref(), Some("エックス"));
        },
        other => panic!("{:?}", other),
    }
    match &e.splits_a[1] {
        SplitUnit::Inline { surface, pos, reading } => {
            assert_eq!(surface, "y");
            assert_eq!(*pos, 1);
            assert_eq!(*reading, None);
        },
        other => panic!("{:?}", other),
    }
    assert_eq!(r.pos_obj(0).unwrap().describe(), "動詞,*,*,*,*,*");
}

#[test]
fn inline_split_too_short() {
    let text = "xy,1,1,1,xy,名詞,*,*,*,*,*,xy,xy,*,C,\"x,動詞\",*,*\n";
    let mut r = LexiconReader::new();
    let err = r.read_bytes(text.as_bytes()).unwrap_err();
    match err.cause {
        DicWriteReason::SplitFormatError { field, original } => {
            assert_eq!(field, "(3) pos-2");
            assert_eq!(original, "x,動詞");
        },
        other => panic!("{:?}", other),
    }
}

#[test]
fn empty_surface_is_refused() {
    let text = ",1,1,1,a,名詞,*,*,*,*,*,a,a,*,C,*,*,*\n";
    let mut r = LexiconReader::new();
    let err = r.read_named("lex.csv".to_string(), text.as_bytes()).unwrap_err();
    assert!(matches!(err.cause, DicWriteReason::EmptySurface));
    assert_eq!(err.file, "lex.csv");
    assert_eq!(err.line, 1);
    assert!(r.entries().is_empty());
}

#[test]
fn a_mode_splits_are_refused() {
    let text = "a,1,1,1,a,名詞,*,*,*,*,*,a,a,*,A,1/2,*,*\n";
    let mut r = LexiconReader::new();
    let err = r.read_bytes(text.as_bytes()).unwrap_err();
    match err.cause {
        DicWriteReason::InvalidSplit(s) => assert_eq!(s, "A-mode tokens can't have splits"),
        other => panic!("{:?}", other),
    }
}

#[test]
fn missing_fields_are_named() {
    let mut r = LexiconReader::new();
    let err = r.read_bytes("a,1,2\n".as_bytes()).unwrap_err();
    assert!(matches!(err.cause, DicWriteReason::NoRawField("(3) cost")));
    let mut r = LexiconReader::new();
    let err = r.read_bytes("a,1,1,1,a,名詞,*,*,*,*,*,a,a,*,C,*,*\n".as_bytes()).unwrap_err();
    assert!(matches!(err.cause, DicWriteReason::NoRawField("(17) word-structure")));
}

#[test]
fn bad_numbers_are_reported() {
    let mut r = LexiconReader::new();
    let err = r.read_bytes("a,x,2,3,a\n".as_bytes()).unwrap_err();
    match err.cause {
        DicWriteReason::InvalidI16Literal(s) => assert_eq!(s, "x"),
        other => panic!("{:?}", other),
    }
}

#[test]
fn second_line_error_has_its_line() {
    let text = format!("{}a,1\n", TOKYO);
    let mut r = LexiconReader::new();
    let err = r.read_named("f".to_string(), text.as_bytes()).unwrap_err();
    assert_eq!(err.line, 2);
    assert_eq!(err.file, "f");
    assert_eq!(r.entries().len(), 1);
}

#[test]
fn invalid_utf8_is_a_csv_error() {
    let mut r = LexiconReader::new();
    let err = r.read_bytes(&[0x61, 0xff, 0x2c, 0x31, 0x0a]).unwrap_err();
    assert!(matches!(err.cause, DicWriteReason::CsvError(_)));
}

#[test]
fn empty_input_reads_nothing() {
    let mut r = LexiconReader::new();
    assert_eq!(r.read_bytes(b"").unwrap(), 0);
    assert!(r.entries().is_empty());
}

#[test]
fn parse_record_direct() {
    let mut r = LexiconReader::new();
    let rec = StringRecord::from(vec![
        "東京", "1", "2", "3", "東京", "名詞", "固有名詞", "地名", "一般", "*", "*", "トウキョウ", "東京", "*", "A", "*", "*", "*",
    ]);
    let e = r.parse_record(&rec).unwrap();
    assert_eq!(e.surface(), "東京");
    assert_eq!(r.pos_obj(0).unwrap().describe(), "名詞,固有名詞,地名,一般,*,*");
    assert!(r.entries().is_empty());
    r.read_record(&rec).unwrap();
    assert_eq!(r.entries().len(), 1);
    let same = r.pos_of([
        "名詞".to_string(),
        "固有名詞".to_string(),
        "地名".to_string(),
        "一般".to_string(),
        "*".to_string(),
        "*".to_string(),
    ]);
    assert_eq!(same.unwrap(), 0);
}

#[test]
fn writes_params() {
    let mut r = LexiconReader::new();
    r.read_bytes("a,-2,258,3,a,名詞,*,*,*,*,*,a,a,*,C,*,*,*\n".as_bytes()).unwrap();
    let mut w: Vec<u8> = Vec::new();
    assert_eq!(r.entries()[0].write_params(&mut w).unwrap(), 6);
    assert_eq!(w, vec![0xFE, 0xFF, 0x02, 0x01, 0x03, 0x00]);
}

#[test]
fn writes_word_info() {
    let mut r = LexiconReader::new();
    r.read_bytes(TOKYO.as_bytes()).unwrap();
    let mut u = Utf16Writer::new();
    let mut w: Vec<u8> = Vec::new();
    let n = r.entries()[0].write_word_info(&mut u, &mut w).unwrap();
    let mut expected: Vec<u8> = vec![2, 0x71, 0x67, 0xAC, 0x4E];
    expected.push(6);
    expected.extend_from_slice(&[0, 0]);
    expected.push(0);
    expected.extend_from_slice(&[0xFF, 0xFF, 0xFF, 0xFF]);
    expected.extend_from_slice(&[5, 0xC8, 0x30, 0xA6, 0x30, 0xAD, 0x30, 0xE7, 0x30, 0xA6, 0x30]);
    expected.extend_from_slice(&[0, 0, 0, 0]);
    assert_eq!(w, expected);
    assert_eq!(n, 28);
    assert_eq!(n, w.len());
}

#[test]
fn writes_pos_table() {
    let mut r = LexiconReader::new();
    r.read_bytes(TOKYO.as_bytes()).unwrap();
    let mut w: Vec<u8> = Vec::new();
    let n = r.write_pos_table(&mut w).unwrap();
    let mut expected: Vec<u8> = vec![1, 0, 0, 0, 0, 0, 0, 0];
    for f in ["名詞", "固有名詞", "地名", "一般", "*", "*"] {
        expected.extend(utf16(f));
    }
    assert_eq!(w, expected);
    assert_eq!(n, 34);
    assert_eq!(n, w.len() - 4);
}

#[test]
fn empty_pos_table() {
    let r = LexiconReader::new();
    let mut w: Vec<u8> = Vec::new();
    assert_eq!(r.write_pos_table(&mut w).unwrap(), 4);
    assert_eq!(w, vec![0; 8]);
}

const TOKYO_OSAKA: &str = "tokyo,1,2,3000,Tokyo,名詞,固有名詞,地名,一般,*,*,toukyou,Tokyo,*,A,*,*,*\n\
                           osaka,1,2,3000,osaka,名詞,固有名詞,地名,一般,*,*,oosaka,osaka,*,A,*,*,*\n";

#[test]
fn first_line_is_a_record() {
    let mut r = LexiconReader::new();
    assert_eq!(r.read_bytes(TOKYO_OSAKA.as_bytes()).unwrap(), 2);
    assert_eq!(r.entries().len(), 2);
    assert_eq!(r.entries()[0].surface(), "tokyo");
    assert_eq!(r.entries()[0].headword.as_deref(), Some("Tokyo"));
    assert_eq!(r.entries()[1].surface(), "osaka");
    assert_eq!(r.entries()[1].headword, None);
    assert_eq!(r.entries()[0].pos, 0);
    assert_eq!(r.entries()[1].pos, 0);
}

#[test]
fn reading_parts_equals_reading_whole() {
    let a = "a,1,1,1,a,名詞,*,*,*,*,*,a,a,*,C,*,*,*\n";
    let b = "b,1,1,1,b,動詞,*,*,*,*,*,b,b,*,C,*,*,*\nc,1,1,1,c,名詞,*,*,*,*,*,c,c,*,C,*,*,*\n";
    let mut r1 = LexiconReader::new();
    assert_eq!(r1.read_bytes(a.as_bytes()).unwrap(), 1);
    assert_eq!(r1.read_bytes(b.as_bytes()).unwrap(), 2);
    let mut r2 = LexiconReader::new();
    assert_eq!(r2.read_bytes(format!("{}{}", a, b).as_bytes()).unwrap(), 3);
    let s1: Vec<(String, u16)> = r1.entries().iter().map(|e| (e.surface().to_string(), e.pos)).collect();
    let s2: Vec<(String, u16)> = r2.entries().iter().map(|e| (e.surface().to_string(), e.pos)).collect();
    assert_eq!(s1, s2);
    assert_eq!(r1.pos_obj(1).unwrap().describe(), r2.pos_obj(1).unwrap().describe());
    assert!(r1.pos_obj(2).is_none() && r2.pos_obj(2).is_none());
}

#[test]
fn failing_record_keeps_earlier_ones_and_stops() {
    let text = "a,1,1,1,a,名詞,*,*,*,*,*,a,a,*,C,*,*,*\n\
                b,1,1,1,b,動詞,*,*,*,*,*,b,b,*,C,*,*,*\n\
                ,1,1,1,c,形容詞,*,*,*,*,*,c,c,*,C,*,*,*\n\
                d,1,1,1,d,副詞,*,*,*,*,*,d,d,*,C,*,*,*\n";
    let mut r = LexiconReader::new();
    let err = r.read_bytes(text.as_bytes()).unwrap_err();
    assert!(matches!(err.cause, DicWriteReason::EmptySurface));
    assert_eq!(err.line, 3);
    assert_eq!(r.entries().len(), 2);
    assert_eq!(r.entries()[1].surface(), "b");
    // the failing record's part of speech was given an id; the next record was not read
    assert_eq!(r.pos_obj(2).unwrap().describe(), "形容詞,*,*,*,*,*");
    assert!(r.pos_obj(3).is_none());
}

#[test]
fn csv_error_has_its_line() {
    let mut text = TOKYO.as_bytes().to_vec();
    text.extend_from_slice(&[0x61, 0xff, 0x2c, 0x31, 0x0a]);
    let mut r = LexiconReader::new();
    let err = r.read_named("g".to_string(), &text).unwrap_err();
    assert!(matches!(err.cause, DicWriteReason::CsvError(_)));
    assert_eq!(err.line, 2);
    assert_eq!(err.file, "g");
    assert_eq!(r.entries().len(), 1);
}

#[test]
fn pos_id_names_its_pos_later() {
    let mut r = LexiconReader::new();
    let verb = || ["動詞".to_string(), "*".to_string(), "*".to_string(), "*".to_string(), "*".to_string(), "*".to_string()];
    r.read_bytes(TOKYO.as_bytes()).unwrap();
    let id = r.pos_of(verb()).unwrap();
    assert_eq!(id, 1);
    r.read_bytes("b,1,1,1,b,副詞,*,*,*,*,*,b,b,*,C,*,*,*\n".as_bytes()).unwrap();
    assert_eq!(r.pos_obj(id).unwrap().describe(), "動詞,*,*,*,*,*");
    assert_eq!(r.pos_of(verb()).unwrap(), id);
}

fn plain_entry(headword: Option<String>, splits_a: Vec<SplitUnit>) -> RawLexiconEntry {
    RawLexiconEntry {
        left_id: 0,
        right_id: 0,
        cost: 0,
        surface: "x".to_string(),
        headword,
        dic_form: WordId::invalid(),
        norm_form: None,
        pos: 0,
        splits_a,
        splits_b: Vec::new(),
        reading: None,
        splitting: Mode::C,
        word_structure: Vec::new(),
        synonym_groups: Vec::new(),
    }
}

#[test]
fn inline_split_reached_only_after_earlier_pieces() {
    let inline = SplitUnit::Inline { surface: "x".to_string(), pos: 0, reading: None };
    let e = plain_entry(None, vec![inline]);
    assert!(!e.writes_resolved_splits());
    let long: String = std::iter::repeat('a').take(40000).collect();
    let inline = SplitUnit::Inline { surface: "x".to_string(), pos: 0, reading: None };
    let e = plain_entry(Some(long), vec![inline]);
    assert!(e.writes_resolved_splits());
    let mut u = Utf16Writer::new();
    let mut w: Vec<u8> = Vec::new();
    let err = e.write_word_info(&mut u, &mut w).unwrap_err();
    assert!(matches!(err, DicWriteReason::InvalidSize { .. }));
    let e = plain_entry(None, vec![SplitUnit::Ref(WordId::from_raw(5))]);
    assert!(e.writes_resolved_splits());
}
