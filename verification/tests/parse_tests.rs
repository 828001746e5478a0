use sudachi::dump::{format_gids, unicode_escape};
use sudachi::error::DicWriteReason;
use sudachi::parse::{
    is_word_id_literal_exec, none_if_equal, parse_dic_form, parse_i16, parse_mode, parse_u32,
    parse_u32_list, parse_wordid, parse_wordid_list, unescape, Mode,
};
use sudachi::text::{split_chars, string_from_chars};
use sudachi::word_id::WordId;

fn c(s: &str) -> Vec<char> {
    s.chars().collect()
}

#[test]
fn word_id_parts() {
    let w = WordId::new(1, 5);
    assert_eq!(w.as_raw(), 0x1000_0005);
    assert_eq!(w.dic_index(), 1);
    assert_eq!(w.word_index(), 5);
    assert!(WordId::checked(15, 0).is_none());
    assert!(WordId::checked(0, 0x1000_0000).is_none());
    assert_eq!(WordId::checked(14, 0x0fff_ffff).unwrap().as_raw(), 0xefff_ffff);
    assert_eq!(WordId::invalid().as_raw(), 0xffff_ffff);
}

#[test]
fn i16_literals() {
    assert_eq!(parse_i16(&c("-32768")).unwrap(), -32768);
    assert_eq!(parse_i16(&c("32767")).unwrap(), 32767);
    assert_eq!(parse_i16(&c("+12")).unwrap(), 12);
    assert_eq!(parse_i16(&c("0")).unwrap(), 0);
    for bad in ["32768", "-32769", "", "-", "+", "1a", " 1", "1.0"] {
        match parse_i16(&c(bad)) {
            Err(DicWriteReason::InvalidI16Literal(s)) => assert_eq!(s, bad),
            other => panic!("{:?} gave {:?}", bad, other),
        }
    }
}

#[test]
fn u32_literals() {
    assert_eq!(parse_u32(&c("4294967295")).unwrap(), 4294967295);
    assert_eq!(parse_u32(&c("+7")).unwrap(), 7);
    for bad in ["4294967296", "-0", "", "x"] {
        match parse_u32(&c(bad)) {
            Err(DicWriteReason::InvalidU32Literal(s)) => assert_eq!(s, bad),
            other => panic!("{:?} gave {:?}", bad, other),
        }
    }
}

#[test]
fn escapes() {
    assert_eq!(unescape(&c("abc")).unwrap(), "abc");
    assert_eq!(unescape(&c("\\u0041")).unwrap(), "A");
    assert_eq!(unescape(&c("x\\u002cy")).unwrap(), "x,y");
    assert_eq!(unescape(&c("\\u{1F600}")).unwrap(), "\u{1F600}");
    assert_eq!(unescape(&c("\\u{41}\\u{42}")).unwrap(), "AB");
    // four digits are taken, the fifth stays
    assert_eq!(unescape(&c("\\u12345")).unwrap(), "\u{1234}5");
    // not escapes: kept as they are
    assert_eq!(unescape(&c("\\uZZ")).unwrap(), "\\uZZ");
    assert_eq!(unescape(&c("\\u{}")).unwrap(), "\\u{}");
    assert_eq!(unescape(&c("\\u{12")).unwrap(), "\\u{12");
    assert_eq!(unescape(&c("\\\\u0041")).unwrap(), "\\A");
    match unescape(&c("x\\u{D800}y")) {
        Err(DicWriteReason::InvalidCharLiteral(s)) => assert_eq!(s, "D800"),
        other => panic!("{:?}", other),
    }
    match unescape(&c("\\u{110000}")) {
        Err(DicWriteReason::InvalidCharLiteral(s)) => assert_eq!(s, "110000"),
        other => panic!("{:?}", other),
    }
    match unescape(&c("\\u{FFFFFFFFFF}")) {
        Err(DicWriteReason::InvalidCharLiteral(s)) => assert_eq!(s, "FFFFFFFFFF"),
        other => panic!("{:?}", other),
    }
}

#[test]
fn modes() {
    assert_eq!(parse_mode(&c("A")).unwrap(), Mode::A);
    assert_eq!(parse_mode(&c("a")).unwrap(), Mode::A);
    assert_eq!(parse_mode(&c("b")).unwrap(), Mode::B);
    assert_eq!(parse_mode(&c("C")).unwrap(), Mode::C);
    assert_eq!(parse_mode(&c("*")).unwrap(), Mode::C);
    match parse_mode(&c("D")) {
        Err(DicWriteReason::InvalidSplit(s)) => assert_eq!(s, "D"),
        other => panic!("{:?}", other),
    }
}

#[test]
fn word_references() {
    assert_eq!(parse_wordid(&c("U5")).unwrap().as_raw(), 0x1000_0005);
    assert_eq!(parse_wordid(&c("123")).unwrap().as_raw(), 123);
    match parse_wordid(&c("268435456")) {
        Err(DicWriteReason::InvalidWordId(s)) => assert_eq!(s, "268435456"),
        other => panic!("{:?}", other),
    }
    match parse_wordid(&c("Uxyz")) {
        Err(DicWriteReason::InvalidWordId(s)) => assert_eq!(s, "xyz"),
        other => panic!("{:?}", other),
    }
    assert!(is_word_id_literal_exec(&c("U12")));
    assert!(is_word_id_literal_exec(&c("12")));
    assert!(!is_word_id_literal_exec(&c("U")));
    assert!(!is_word_id_literal_exec(&c("")));
    assert!(!is_word_id_literal_exec(&c("1,2")));
    assert_eq!(parse_dic_form(&c("*")).unwrap().as_raw(), 0xffff_ffff);
    assert_eq!(parse_dic_form(&c("U3")).unwrap().as_raw(), 0x1000_0003);
}

#[test]
fn lists() {
    assert_eq!(parse_u32_list(&c("1/2/3")).unwrap(), vec![1, 2, 3]);
    assert!(parse_u32_list(&c("*")).unwrap().is_empty());
    assert!(parse_u32_list(&c("")).unwrap().is_empty());
    match parse_u32_list(&c("1//2")) {
        Err(DicWriteReason::InvalidU32Literal(s)) => assert_eq!(s, ""),
        other => panic!("{:?}", other),
    }
    let many: Vec<String> = (0..128).map(|i| i.to_string()).collect();
    match parse_u32_list(&c(&many.join("/"))) {
        Err(DicWriteReason::InvalidSize { actual, expected }) => {
            assert_eq!(actual, 128);
            assert_eq!(expected, 127);
        },
        other => panic!("{:?}", other),
    }
    let ok: Vec<String> = (0..127).map(|i| i.to_string()).collect();
    assert_eq!(parse_u32_list(&c(&ok.join("/"))).unwrap().len(), 127);
    let ids: Vec<u32> = parse_wordid_list(&c("1/U2")).unwrap().iter().map(|w| w.as_raw()).collect();
    assert_eq!(ids, vec![1, 0x1000_0002]);
    match parse_wordid_list(&c("1/x")) {
        Err(DicWriteReason::InvalidWordId(s)) => assert_eq!(s, "x"),
        other => panic!("{:?}", other),
    }
}

#[test]
fn splitting_text() {
    let parts: Vec<String> = split_chars(&c("a,b,,c"), ',', None).iter().map(string_from_chars).collect();
    assert_eq!(parts, vec!["a", "b", "", "c"]);
    let limited: Vec<String> = split_chars(&c("a,b,c,d"), ',', Some(3)).iter().map(string_from_chars).collect();
    assert_eq!(limited, vec!["a", "b", "c,d"]);
    let empty: Vec<String> = split_chars(&c(""), '/', None).iter().map(string_from_chars).collect();
    assert_eq!(empty, vec![""]);
}

#[test]
fn optional_fields() {
    assert_eq!(none_if_equal(&"a".to_string(), "a".to_string()), None);
    assert_eq!(none_if_equal(&"a".to_string(), "b".to_string()), Some("b".to_string()));
}

#[test]
fn dump_escapes() {
    assert_eq!(unicode_escape("a,\"b"), "a\\u002c\\u0022b");
    assert_eq!(unicode_escape("東京"), "東京");
    assert_eq!(unicode_escape(""), "");
    let back = unescape(&c(&unicode_escape("x,\"y\",z"))).unwrap();
    assert_eq!(back, "x,\"y\",z");
}

#[test]
fn dump_synonym_groups() {
    assert_eq!(format_gids(&vec![]), "*");
    assert_eq!(format_gids(&vec![1]), "000001");
    assert_eq!(format_gids(&vec![1, 1234567, 0]), "000001/1234567/000000");
    let v = vec![5, 42, 4294967295];
    assert_eq!(parse_u32_list(&c(&format_gids(&v))).unwrap(), v);
}
