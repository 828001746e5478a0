use sudachi::error::DicWriteReason;
use sudachi::pos::StrPosEntry;
use sudachi::primitives::{write_u32_array, Utf16Writer};

#[test]
fn utf16_strings() {
    let mut u = Utf16Writer::new();
    let mut w: Vec<u8> = vec![9];
    assert_eq!(u.write(&mut w, "a").unwrap(), 3);
    assert_eq!(w, vec![9, 1, 0x61, 0x00]);

    let mut w: Vec<u8> = Vec::new();
    assert_eq!(u.write(&mut w, "\u{1F600}").unwrap(), 5);
    assert_eq!(w, vec![2, 0x3D, 0xD8, 0x00, 0xDE]);

    let mut w: Vec<u8> = Vec::new();
    assert_eq!(u.write(&mut w, "東京").unwrap(), 5);
    assert_eq!(w, vec![2, 0x71, 0x67, 0xAC, 0x4E]);

    let mut w: Vec<u8> = Vec::new();
    assert_eq!(u.write(&mut w, "").unwrap(), 1);
    assert_eq!(w, vec![0]);
}

#[test]
fn utf16_long_strings() {
    let mut u = Utf16Writer::new();
    let s = "x".repeat(300);
    let mut w: Vec<u8> = Vec::new();
    assert_eq!(u.write(&mut w, &s).unwrap(), 602);
    assert_eq!(&w[..4], &[0x81, 0x2C, 0x78, 0x00]);

    let too_long = "x".repeat(32768);
    let mut w: Vec<u8> = vec![1, 2];
    match u.write(&mut w, &too_long) {
        Err(DicWriteReason::InvalidSize { actual, expected }) => {
            assert_eq!(actual, 32768);
            assert_eq!(expected, 32767);
        },
        other => panic!("{:?}", other),
    }
    assert_eq!(w, vec![1, 2]);

    let longest = "x".repeat(32767);
    let mut w: Vec<u8> = Vec::new();
    assert_eq!(u.write(&mut w, &longest).unwrap(), 2 + 2 * 32767);
    assert_eq!(&w[..2], &[0xFF, 0xFF]);
}

#[test]
fn length_prefixes() {
    let mut u = Utf16Writer::new();
    let mut w: Vec<u8> = Vec::new();
    assert_eq!(u.write_len(&mut w, 126).unwrap(), 1);
    assert_eq!(w, vec![126]);
    let mut w: Vec<u8> = Vec::new();
    assert_eq!(u.write_len(&mut w, 127).unwrap(), 2);
    assert_eq!(w, vec![0x80, 127]);
    let mut w: Vec<u8> = Vec::new();
    assert_eq!(u.write_len(&mut w, 300).unwrap(), 2);
    assert_eq!(w, vec![0x81, 0x2C]);
    let mut w: Vec<u8> = Vec::new();
    assert!(matches!(u.write_len(&mut w, 32768), Err(DicWriteReason::InvalidSize { actual: 32768, expected: 32767 })));
    assert!(w.is_empty());
}

#[test]
fn empty_if_equal() {
    let mut u = Utf16Writer::new();
    let mut w: Vec<u8> = Vec::new();
    assert_eq!(u.write_empty_if_equal(&mut w, "x", "x").unwrap(), 1);
    assert_eq!(w, vec![0]);
    let mut w: Vec<u8> = Vec::new();
    assert_eq!(u.write_empty_if_equal(&mut w, "x", "y").unwrap(), 3);
    assert_eq!(w, vec![1, 0x78, 0]);
}

#[test]
fn u32_arrays() {
    let mut w: Vec<u8> = Vec::new();
    assert_eq!(write_u32_array(&mut w, &vec![1u32, 0x0102_0304]).unwrap(), 9);
    assert_eq!(w, vec![2, 1, 0, 0, 0, 4, 3, 2, 1]);
    let mut w: Vec<u8> = Vec::new();
    assert_eq!(write_u32_array::<u32>(&mut w, &Vec::new()).unwrap(), 1);
    assert_eq!(w, vec![0]);
    let mut w: Vec<u8> = Vec::new();
    let many: Vec<u32> = (0..128).collect();
    assert!(matches!(write_u32_array(&mut w, &many), Err(DicWriteReason::InvalidSize { actual: 128, expected: 127 })));
    assert!(w.is_empty());
}

#[test]
fn pos_entries() {
    let data = [
        "名詞".to_string(),
        "普通名詞".to_string(),
        "一般".to_string(),
        "*".to_string(),
        "*".to_string(),
        "*".to_string(),
    ];
    let e = StrPosEntry::new(data.clone());
    assert_eq!(e.fields(), &data);
    assert_eq!(e.describe(), "名詞,普通名詞,一般,*,*,*");
}
