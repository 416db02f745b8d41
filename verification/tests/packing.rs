use promptproxy::pack::{pack_target_files, pack_texts, SourceFile, TextFile, CLOSE_TAG, PACK_HEADER};

fn file(name: &str, content: Option<&[u8]>) -> SourceFile {
    SourceFile { name: name.to_string(), bytes: content.map(|c| c.to_vec()) }
}

fn text(chunks: &[Vec<u8>]) -> Vec<String> {
    chunks.iter().map(|c| String::from_utf8(c.clone()).unwrap()).collect()
}

fn section_heads(chunk: &str) -> Vec<String> {
    chunk.split('\n').filter(|l| l.starts_with("<file ")).map(|l| l.to_string()).collect()
}

#[test]
fn one_small_file_without_limit() {
    let out = text(&pack_target_files(&vec![file("a.rs", Some(b"l1\r\nl2\n"))], "", 0));
    let expected = format!(
        "{}<file path=\"a.rs\" lines=\"1-2\"><![CDATA[\nl1\nl2\n{}",
        PACK_HEADER, CLOSE_TAG
    );
    assert_eq!(out, vec![expected]);
}

#[test]
fn header_is_the_aider_boilerplate() {
    assert_eq!(PACK_HEADER.len(), 218);
    assert!(PACK_HEADER.starts_with("I have *added these files to the chat*"));
    assert!(PACK_HEADER.ends_with("contents.\n\n"));
    assert_eq!(CLOSE_TAG, "\n]]></file>\n");
}

#[test]
fn unreadable_and_empty_files_give_no_chunk() {
    let files = vec![file("missing.rs", None), file("empty.rs", Some(b""))];
    assert!(pack_target_files(&files, "", 80).is_empty());
    assert!(pack_target_files(&Vec::new(), "", 80).is_empty());
}

#[test]
fn several_files_share_a_chunk() {
    let files = vec![file("a", Some(b"1")), file("gone", None), file("b", Some(b"2\n3"))];
    let out = text(&pack_target_files(&files, "", 80));
    assert_eq!(out.len(), 1);
    let expected = format!(
        "{h}<file path=\"a\" lines=\"1-1\"><![CDATA[\n1\n{c}<file path=\"b\" lines=\"1-2\"><![CDATA[\n2\n3\n{c}",
        h = PACK_HEADER,
        c = CLOSE_TAG
    );
    assert_eq!(out[0], expected);
}

#[test]
fn large_file_is_split_by_lines_within_limit() {
    let mut big = String::new();
    for _ in 0..20 {
        big.push_str(&"x".repeat(100));
        big.push('\n');
    }
    let files = vec![file("big.txt", Some(big.as_bytes())), file("small.rs", Some(b"fn main() {}\n"))];
    let out = text(&pack_target_files(&files, "", 1));
    assert_eq!(out.len(), 3);
    let lens: Vec<usize> = out.iter().map(|c| c.len()).collect();
    assert_eq!(lens, vec![980, 981, 950]);
    assert_eq!(section_heads(&out[0]), vec!["<file path=\"big.txt\" lines=\"1-7\"><![CDATA["]);
    assert_eq!(section_heads(&out[1]), vec!["<file path=\"big.txt\" lines=\"8-14\"><![CDATA["]);
    assert_eq!(
        section_heads(&out[2]),
        vec!["<file path=\"big.txt\" lines=\"15-20\"><![CDATA[", "<file path=\"small.rs\" lines=\"1-1\"><![CDATA["]
    );
    for c in &out {
        assert!(c.starts_with(PACK_HEADER));
        assert!(c.len() > PACK_HEADER.len());
        assert!(c.len() <= 1024);
    }
}

#[test]
fn over_long_line_gets_a_chunk_of_its_own() {
    let long = "y".repeat(2000);
    let out = text(&pack_target_files(&vec![file("a", Some(long.as_bytes()))], "", 1));
    assert_eq!(out.len(), 1);
    assert_eq!(out[0].len(), 2268);
    assert_eq!(section_heads(&out[0]), vec!["<file path=\"a\" lines=\"1-1\"><![CDATA["]);
}

#[test]
fn packed_text_is_decoded_from_file_encoding() {
    let sjis = [0x93u8, 0xFA, 0x96, 0x7B, b'\n'];
    let out = text(&pack_target_files(&vec![file("j.txt", Some(&sjis))], "cp932", 0));
    assert_eq!(
        out,
        vec![format!("{}<file path=\"j.txt\" lines=\"1-1\"><![CDATA[\n日本\n{}", PACK_HEADER, CLOSE_TAG)]
    );
}

/// The sections of a chunk: (path, first, last, content).
fn sections(chunk: &str) -> Vec<(String, usize, usize, String)> {
    let mut rest = &chunk[PACK_HEADER.len()..];
    let mut out = Vec::new();
    while !rest.is_empty() {
        let head_end = rest.find("><![CDATA[\n").unwrap();
        let head = &rest[..head_end];
        let path = head.split('"').nth(1).unwrap().to_string();
        let range = head.split('"').nth(3).unwrap();
        let (a, b) = range.split_once('-').unwrap();
        rest = &rest[head_end + "><![CDATA[\n".len()..];
        let end = rest.find(CLOSE_TAG).unwrap();
        out.push((path, a.parse().unwrap(), b.parse().unwrap(), rest[..end].to_string()));
        rest = &rest[end + CLOSE_TAG.len()..];
    }
    out
}

#[test]
fn every_line_is_packed_once_with_right_numbers() {
    let mut big = String::new();
    for i in 0..40 {
        big.push_str(&format!("line {} {}\r\n", i + 1, "z".repeat(i * 7)));
    }
    let files = vec![file("a.txt", Some(big.as_bytes())), file("b.txt", Some(b"one\ntwo"))];
    let out = text(&pack_target_files(&files, "", 1));
    assert!(out.len() > 1);
    let mut all = String::new();
    let mut next_line: std::collections::HashMap<String, usize> = std::collections::HashMap::new();
    for chunk in &out {
        assert!(chunk.len() <= 1024);
        for (path, first, last, content) in sections(chunk) {
            let expected_first = *next_line.get(&path).unwrap_or(&1);
            assert_eq!(first, expected_first);
            assert!(first <= last);
            let lines: Vec<&str> = if path == "a.txt" { big.lines().collect() } else { vec!["one", "two"] };
            let expected: String = lines[first - 1..last].iter().map(|l| format!("{}\n", l)).collect();
            assert_eq!(content, expected);
            next_line.insert(path, last + 1);
            all.push_str(&content);
        }
    }
    assert_eq!(next_line["a.txt"], 41);
    assert_eq!(next_line["b.txt"], 3);
    let whole: String = big.lines().chain(["one", "two"]).map(|l| format!("{}\n", l)).collect();
    assert_eq!(all, whole);
}

#[test]
fn pack_texts_packs_decoded_texts() {
    let files = vec![
        TextFile { name: "x.rs".to_string(), text: Some("a\r\nb".to_string()) },
        TextFile { name: "gone".to_string(), text: None },
    ];
    let out = text(&pack_texts(&files, 0));
    assert_eq!(out, vec![format!("{}<file path=\"x.rs\" lines=\"1-2\"><![CDATA[\na\nb\n{}", PACK_HEADER, CLOSE_TAG)]);
}

#[test]
fn unreadable_files_do_not_change_the_chunks() {
    let big = "w".repeat(300) + "\n";
    let with_missing = vec![
        file("a", Some(big.repeat(5).as_bytes())),
        file("missing1", None),
        file("b", Some(b"b1\nb2\n")),
        file("missing2", None),
    ];
    let readable = vec![file("a", Some(big.repeat(5).as_bytes())), file("b", Some(b"b1\nb2\n"))];
    assert_eq!(pack_target_files(&with_missing, "", 1), pack_target_files(&readable, "", 1));
}

#[test]
fn no_limit_keeps_every_file_in_one_chunk() {
    let big = "q".repeat(500) + "\n";
    let files = vec![
        file("a", Some(big.repeat(30).as_bytes())),
        file("gone", None),
        file("b", Some(big.repeat(12).as_bytes())),
        file("c", Some(b"last")),
    ];
    let out = text(&pack_target_files(&files, "", 0));
    assert_eq!(out.len(), 1);
    let heads = section_heads(&out[0]);
    assert_eq!(
        heads,
        vec![
            "<file path=\"a\" lines=\"1-30\"><![CDATA[",
            "<file path=\"b\" lines=\"1-12\"><![CDATA[",
            "<file path=\"c\" lines=\"1-1\"><![CDATA[",
        ]
    );
    assert!(out[0].len() > 20 * 1024);
}
