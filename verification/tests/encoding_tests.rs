use markdown_viewer::encoding::{decode, detect_bom, Bom};

#[test]
fn plain_utf8() {
    let d = decode("こんにちは".as_bytes());
    assert_eq!(d.text, "こんにちは");
    assert_eq!(d.encoding, "UTF-8");
}

#[test]
fn utf8_with_bom_strips_bom() {
    let mut bytes = vec![0xEF, 0xBB, 0xBF];
    bytes.extend_from_slice("abc".as_bytes());
    let d = decode(&bytes);
    assert_eq!(d.text, "abc");
    assert_eq!(d.encoding, "UTF-8 (BOM)");
}

#[test]
fn utf16le_with_bom() {
    let d = decode(&[0xFF, 0xFE, 0x42, 0x30]);
    assert_eq!(d.text, "あ");
    assert_eq!(d.encoding, "UTF-16 LE");
}

#[test]
fn utf16be_with_bom() {
    let d = decode(&[0xFE, 0xFF, 0x30, 0x42]);
    assert_eq!(d.text, "あ");
    assert_eq!(d.encoding, "UTF-16 BE");
}

#[test]
fn shift_jis_fallback() {
    let d = decode(&[0x93, 0xFA, 0x96, 0x7B, 0x8C, 0xEA]);
    assert_eq!(d.text, "日本語");
    assert_eq!(d.encoding, "Shift_JIS");
}

#[test]
fn empty_input_is_utf8() {
    let d = decode(&[]);
    assert_eq!(d.text, "");
    assert_eq!(d.encoding, "UTF-8");
}

#[test]
fn bom_detection_order() {
    assert!(matches!(detect_bom(&[0xEF, 0xBB, 0xBF, 0x41]), Some(Bom::Utf8)));
    assert!(matches!(detect_bom(&[0xFF, 0xFE]), Some(Bom::Utf16Le)));
    assert!(matches!(detect_bom(&[0xFE, 0xFF, 0x00]), Some(Bom::Utf16Be)));
    assert!(detect_bom(&[0xEF, 0xBB]).is_none());
    assert!(detect_bom(b"abc").is_none());
}

#[test]
fn invalid_utf8_after_bom_is_replaced() {
    let d = decode(&[0xEF, 0xBB, 0xBF, 0x61, 0xFF, 0x62]);
    assert_eq!(d.text, "a\u{FFFD}b");
    assert_eq!(d.encoding, "UTF-8 (BOM)");
}

#[test]
fn bom_only_gives_empty_text() {
    let d = decode(&[0xFE, 0xFF]);
    assert_eq!(d.text, "");
    assert_eq!(d.encoding, "UTF-16 BE");
}
