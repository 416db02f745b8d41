use promptproxy::line_endings::{decide_crlf, normalize_line_endings};
use promptproxy::patch::{patch_target_paths, prepare_patch_per_file};

#[test]
fn normalize_to_crlf() {
    assert_eq!(normalize_line_endings("a\r\nb\nc", true), "a\r\nb\r\nc");
    assert_eq!(normalize_line_endings("\n", true), "\r\n");
}

#[test]
fn normalize_to_lf() {
    assert_eq!(normalize_line_endings("a\r\nb\nc\r", false), "a\nb\nc\r");
    assert_eq!(normalize_line_endings("no newline", false), "no newline");
}

#[test]
fn crlf_round_trip_example() {
    let s = "x\r\ny\rz\n";
    let crlf = normalize_line_endings(s, true);
    assert_eq!(normalize_line_endings(&crlf, false), normalize_line_endings(s, false));
    assert_eq!(normalize_line_endings(&normalize_line_endings(s, true), true), normalize_line_endings(s, true));
}

#[test]
fn lf_normalization_is_not_idempotent_on_cr_cr_lf() {
    let once = normalize_line_endings("\r\r\n", false);
    assert_eq!(once, "\r\n");
    assert_eq!(normalize_line_endings(&once, false), "\n");
}

#[test]
fn crlf_endings_have_cr_before_every_lf() {
    let out = normalize_line_endings("a\nb\r\n\nc\r", true);
    let b = out.as_bytes();
    for i in 0..b.len() {
        if b[i] == b'\n' {
            assert!(i > 0 && b[i - 1] == b'\r');
        }
    }
}

#[test]
fn line_ending_decision() {
    assert!(decide_crlf(&Some(b"x\r\ny\nz".to_vec()), false));
    assert!(!decide_crlf(&Some(b"x\ny".to_vec()), true));
    assert!(decide_crlf(&Some(b"xy".to_vec()), true));
    assert!(!decide_crlf(&Some(Vec::new()), false));
    assert!(decide_crlf(&None, true));
    assert!(!decide_crlf(&None, false));
}

fn some(p: &str) -> Option<String> {
    Some(p.to_string())
}

#[test]
fn target_path_above_search_marker() {
    let r = "Here it is:\n```\nsrc/main.rs\n<<<<<<< SEARCH\nold\n=======\nnew\n>>>>>>> REPLACE\n```\n";
    assert_eq!(patch_target_paths(r), vec![some("src/main.rs")]);
}

#[test]
fn target_path_strips_decorations_and_skips_fences() {
    let r = "**`src/lib.rs`**\n\n```rust\n<<<<<<< SEARCH\n";
    assert_eq!(patch_target_paths(r), vec![some("src/lib.rs")]);
    let r2 = "  'a b.txt'  \r\n<<<<<<< SEARCH\r\n";
    assert_eq!(patch_target_paths(r2), vec![some("a b.txt")]);
}

#[test]
fn target_path_missing() {
    assert!(patch_target_paths("no blocks here\n").is_empty());
    assert_eq!(patch_target_paths("<<<<<<< SEARCH\nx\n"), vec![None]);
    assert_eq!(patch_target_paths("```\n\n<<<<<<< SEARCH\n"), vec![None]);
}

#[test]
fn every_block_has_its_own_target() {
    let r = "```\none.rs\n<<<<<<< SEARCH\na\n=======\nb\n>>>>>>> REPLACE\n\ntwo.rs\n<<<<<<< SEARCH\nc\n=======\nd\n>>>>>>> REPLACE\n```\n";
    assert_eq!(patch_target_paths(r), vec![some("one.rs"), some("two.rs")]);
}

#[test]
fn target_path_may_be_empty_after_stripping() {
    assert_eq!(patch_target_paths("**\n<<<<<<< SEARCH\n"), vec![some("")]);
}

#[test]
fn prepared_patch_follows_crlf_file() {
    let out = prepare_patch_per_file("f.rs\n<<<<<<< SEARCH\r\na\n", &vec![Some(b"x\r\n".to_vec())], false, "");
    assert_eq!(out, b"f.rs\r\n<<<<<<< SEARCH\r\na\r\n".to_vec());
}

#[test]
fn prepared_patch_follows_lf_file_and_encoding() {
    let out = prepare_patch_per_file("日本\r\n<<<<<<< SEARCH\r\n", &vec![Some(b"x\ny".to_vec())], true, "cp932");
    assert_eq!(out, vec![0x93u8, 0xFA, 0x96, 0x7B, b'\n', b'<', b'<', b'<', b'<', b'<', b'<', b'<', b' ', b'S', b'E', b'A', b'R', b'C', b'H', b'\n']);
}

#[test]
fn prepared_patch_uses_default_without_file() {
    assert_eq!(prepare_patch_per_file("a\nb", &vec![], true, ""), b"a\r\nb".to_vec());
    assert_eq!(prepare_patch_per_file("a\r\nb", &vec![None], false, ""), b"a\nb".to_vec());
}

#[test]
fn each_block_keeps_its_own_files_line_endings() {
    let r = "lf.rs\n<<<<<<< SEARCH\r\nx\r\n=======\r\ny\r\n>>>>>>> REPLACE\r\ncrlf.rs\n<<<<<<< SEARCH\nu\n=======\nv\n>>>>>>> REPLACE\n";
    let targets = vec![Some(b"a\nb\n".to_vec()), Some(b"a\r\nb\r\n".to_vec())];
    let out = String::from_utf8(prepare_patch_per_file(r, &targets, true, "")).unwrap();
    assert_eq!(
        out,
        "lf.rs\n<<<<<<< SEARCH\nx\n=======\ny\n>>>>>>> REPLACE\ncrlf.rs\n<<<<<<< SEARCH\r\nu\r\n=======\r\nv\r\n>>>>>>> REPLACE\r\n"
    );
}

#[test]
fn lf_patch_drops_carriage_returns_of_crlf_pairs() {
    let out = normalize_line_endings("a\r\nb\r\n", false);
    assert!(!out.contains('\r'));
}

const TWO_BLOCKS_ONE_PATH: &str = "```\nsrc/a.rs\n<<<<<<< SEARCH\nold1\n=======\nnew1\n>>>>>>> REPLACE\n<<<<<<< SEARCH\nold2\n=======\nnew2\n>>>>>>> REPLACE\n```\n";

#[test]
fn block_without_path_line_reuses_previous_target() {
    assert_eq!(
        patch_target_paths(TWO_BLOCKS_ONE_PATH),
        vec![Some("src/a.rs".to_string()), Some("src/a.rs".to_string())]
    );
    let fenced = "`b.rs`\n```rust\n<<<<<<< SEARCH\nx\n=======\ny\n>>>>>>> REPLACE\n```\n\n```rust\n<<<<<<< SEARCH\nz\n=======\nw\n>>>>>>> REPLACE\n```\nc.rs\n<<<<<<< SEARCH\nq\n=======\nr\n>>>>>>> REPLACE\n";
    assert_eq!(
        patch_target_paths(fenced),
        vec![Some("b.rs".to_string()), Some("b.rs".to_string()), Some("c.rs".to_string())]
    );
}

#[test]
fn crlf_file_named_once_gets_crlf_in_every_block_on_linux() {
    let paths = patch_target_paths(TWO_BLOCKS_ONE_PATH);
    let file: Option<Vec<u8>> = Some(b"old1\r\nold2\r\n".to_vec());
    let targets: Vec<Option<Vec<u8>>> = paths.iter().map(|_| file.clone()).collect();
    let out = prepare_patch_per_file(TWO_BLOCKS_ONE_PATH, &targets, false, "");
    assert_eq!(String::from_utf8(out).unwrap(), TWO_BLOCKS_ONE_PATH.replace('\n', "\r\n"));
}

#[test]
fn lf_file_named_once_keeps_lf_in_every_block_on_windows() {
    let crlf_response = TWO_BLOCKS_ONE_PATH.replace('\n', "\r\n");
    let paths = patch_target_paths(&crlf_response);
    assert_eq!(paths.len(), 2);
    let file: Option<Vec<u8>> = Some(b"old1\nold2\n".to_vec());
    let targets: Vec<Option<Vec<u8>>> = paths.iter().map(|_| file.clone()).collect();
    let out = prepare_patch_per_file(&crlf_response, &targets, true, "");
    assert_eq!(String::from_utf8(out).unwrap(), TWO_BLOCKS_ONE_PATH);
}
