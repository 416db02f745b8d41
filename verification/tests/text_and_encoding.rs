use promptproxy::encoding::{decode_file_text, encode_file_text, encoding_labels_for, resolve_encoding_labels};
use promptproxy::text::{replace_str, split_words_str, trim_str};

fn pair(a: &str, b: &str) -> (String, String) {
    (a.to_string(), b.to_string())
}

#[test]
fn trim_removes_unicode_white_space() {
    assert_eq!(trim_str(" \t a b \u{3000}\n"), "a b");
    assert_eq!(trim_str("   "), "");
    assert_eq!(trim_str(""), "");
}

#[test]
fn trim_is_idempotent_on_examples() {
    for s in ["  x  ", "\u{2003}y\u{85}", "z", ""] {
        let once = trim_str(s);
        assert_eq!(trim_str(&once), once);
    }
}

#[test]
fn split_words_like_split_whitespace() {
    let w = split_words_str("  src/a.rs\tsrc/b.rs \u{3000}c  ");
    assert_eq!(w, vec!["src/a.rs".to_string(), "src/b.rs".to_string(), "c".to_string()]);
    assert!(split_words_str(" \n ").is_empty());
}

#[test]
fn replace_is_left_to_right_without_overlap() {
    assert_eq!(replace_str("aaa", "aa", "b"), "ba");
    assert_eq!(replace_str("x{instruction}y{instruction}", "{instruction}", "Z"), "xZyZ");
    assert_eq!(replace_str("abc", "", "Z"), "abc");
}

#[test]
fn shift_jis_aliases_resolve_to_windows_31j_and_cp932() {
    for input in ["cp932", "CP932", " Shift_JIS ", "sjis", "Windows-31J"] {
        assert_eq!(resolve_encoding_labels(input), pair("windows-31j", "cp932"), "{}", input);
    }
}

#[test]
fn euc_jp_aliases_resolve() {
    assert_eq!(resolve_encoding_labels("EUC-JP"), pair("euc-jp", "euc_jp"));
    assert_eq!(resolve_encoding_labels("\teuc_jp\n"), pair("euc-jp", "euc_jp"));
}

#[test]
fn other_labels_pass_through_normalized() {
    assert_eq!(resolve_encoding_labels(" UTF-8 "), pair("utf-8", "utf-8"));
    assert_eq!(resolve_encoding_labels(""), pair("", ""));
    assert_eq!(resolve_encoding_labels("Latin1"), pair("latin1", "latin1"));
}

#[test]
fn labels_ignore_surrounding_space() {
    let raw = "  Shift_JIS\t";
    assert_eq!(resolve_encoding_labels(raw), resolve_encoding_labels(&trim_str(raw)));
}

#[test]
fn encoding_labels_for_does_not_normalize() {
    assert_eq!(encoding_labels_for("sjis"), pair("windows-31j", "cp932"));
    assert_eq!(encoding_labels_for("SJIS"), pair("SJIS", "SJIS"));
}

#[test]
fn decode_shift_jis_file() {
    let bytes = [0x93u8, 0xFA, 0x96, 0x7B];
    assert_eq!(decode_file_text(&bytes, "cp932"), "日本");
    assert_eq!(decode_file_text(&bytes, " sjis "), "日本");
}

#[test]
fn decode_without_encoding_is_lossy_utf8() {
    assert_eq!(decode_file_text(b"abc\xff", ""), "abc\u{FFFD}");
    assert_eq!(decode_file_text("héllo".as_bytes(), "   "), "héllo");
}

#[test]
fn decode_with_unknown_encoding_is_lossy_utf8() {
    assert_eq!(decode_file_text(b"ok\xfe", "no-such-encoding"), "ok\u{FFFD}");
}

#[test]
fn encode_shift_jis_text() {
    assert_eq!(encode_file_text("日本", "SJIS"), vec![0x93u8, 0xFA, 0x96, 0x7B]);
}

#[test]
fn encode_without_known_encoding_is_utf8() {
    assert_eq!(encode_file_text("é", ""), "é".as_bytes().to_vec());
    assert_eq!(encode_file_text("é", "bogus"), "é".as_bytes().to_vec());
    assert_eq!(encode_file_text("é", "latin1"), vec![0xE9u8]);
}

#[test]
fn labels_ignore_ascii_case_and_padding() {
    for x in ["cp932", "Euc_Jp", "utf-8", "Latin1", "windows-1252"] {
        let padded = format!(" \t{}\n", x.to_ascii_uppercase());
        assert_eq!(resolve_encoding_labels(&padded), resolve_encoding_labels(x), "{}", x);
    }
}

#[test]
fn blank_encoding_name_means_utf8() {
    assert_eq!(encode_file_text("日本", " \t "), "日本".as_bytes().to_vec());
    assert_eq!(decode_file_text(b"\xe6\x97\xa5\xff", "\u{3000}"), "日\u{FFFD}");
}
