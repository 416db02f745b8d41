//! Text encodings: the labels under which Rust (`encoding_rs`) and Python
//! (Aider) know an encoding, and the conversions between text and the bytes
//! of a file in a chosen encoding.

use vstd::prelude::*;
use vstd::utf8::{decode_utf8, encode_utf8, valid_utf8};
use encoding_rs::Encoding;
use crate::text::{
    all_in_class, chars_of, in_class, is_white_space, lemma_trim_idempotent,
    lemma_trim_ignores_padding, string_of, strip_back, strip_class, strip_front, trim, trim_str,
    CharClass,
};

verus! {

broadcast use vstd::string::group_string_axioms;


// ---------------------------------------------------------------------------
// Encoding labels
// ---------------------------------------------------------------------------

/// What `str::to_lowercase` returns for a string (Unicode lowercase mapping).
pub uninterp spec fn lowercase(s: Seq<char>) -> Seq<char>;

/// Every character of `s` is ASCII.
pub open spec fn is_ascii_text(s: Seq<char>) -> bool {
    forall|i: int| 0 <= i < s.len() ==> (#[trigger] s[i] as u32) < 128
}

/// `c` with `A`..`Z` mapped to `a`..`z`.
pub open spec fn ascii_lower_char(c: char) -> char {
    if 65 <= (c as u32) <= 90 {
        ((c as u32) + 32) as char
    } else {
        c
    }
}

/// `s` with `A`..`Z` mapped to `a`..`z`.
pub open spec fn ascii_lowercase(s: Seq<char>) -> Seq<char> {
    Seq::new(s.len(), |i: int| ascii_lower_char(s[i]))
}

/// Calls `str::to_lowercase`; the result is named `lowercase` of the input.
/// For ASCII text the Unicode lowercase mapping takes `A`..`Z` to `a`..`z`
/// and keeps every other character, one for one (the empty text included);
/// that much is stated.
#[verifier::external_body]
fn to_lowercase(s: &str) -> (res: String)
    ensures
        res@ == lowercase(s@),
        is_ascii_text(s@) ==> res@ == ascii_lowercase(s@),
{
    s.to_lowercase()
}

/// The pair (Rust label, Python label) for a normalised encoding name: the
/// Japanese Shift_JIS family becomes `windows-31j` / `cp932`, EUC-JP becomes
/// `euc-jp` / `euc_jp`, and any other name is passed on to both unchanged.
pub open spec fn label_pair(n: Seq<char>) -> (Seq<char>, Seq<char>) {
    if n == "cp932"@ || n == "windows-31j"@ || n == "shift_jis"@ || n == "sjis"@ {
        ("windows-31j"@, "cp932"@)
    } else if n == "euc-jp"@ || n == "euc_jp"@ {
        ("euc-jp"@, "euc_jp"@)
    } else {
        (n, n)
    }
}

/// The name to which `resolve_encoding_labels` normalises its input: the
/// trimmed name, lowercased; for an ASCII name that is its letters `A`..`Z`
/// mapped to `a`..`z`, and otherwise the Unicode lowercase mapping.
pub open spec fn normalized_label(input: Seq<char>) -> Seq<char> {
    let t = trim(input);
    if is_ascii_text(t) {
        ascii_lowercase(t)
    } else {
        lowercase(t)
    }
}

/// The pair of labels `resolve_encoding_labels` returns for `input`.
pub open spec fn resolved_labels(input: Seq<char>) -> (Seq<char>, Seq<char>) {
    label_pair(normalized_label(input))
}

pub(crate) fn same_chars(a: &Vec<char>, b: &Vec<char>) -> (res: bool)
    ensures
        res == (a@ == b@),
{
    if a.len() != b.len() {
        return false;
    }
    let n = a.len();
    for i in 0..n
        invariant
            n == a@.len() == b@.len(),
            forall|k: int| 0 <= k < i ==> a@[k] == b@[k],
    {
        if a[i] != b[i] {
            return false;
        }
    }
    assert(a@ =~= b@);
    true
}

fn is_one_of(n: &Vec<char>, names: &[&str]) -> (res: bool)
    ensures
        res == exists|i: int| 0 <= i < names@.len() && n@ == (#[trigger] names@[i])@,
{
    let len = names.len();
    for i in 0..len
        invariant
            len == names@.len(),
            forall|k: int| 0 <= k < i ==> n@ != (#[trigger] names@[k])@,
    {
        let cand = chars_of(names[i]);
        if same_chars(n, &cand) {
            return true;
        }
    }
    false
}

/// The (Rust, Python) labels for an already normalised encoding name.
pub fn encoding_labels_for(normalized: &str) -> (res: (String, String))
    ensures
        (res.0@, res.1@) == label_pair(normalized@),
{
    let n = chars_of(normalized);
    let sjis: [&str; 4] = ["cp932", "windows-31j", "shift_jis", "sjis"];
    let eucjp: [&str; 2] = ["euc-jp", "euc_jp"];
    if is_one_of(&n, &sjis) {
        proof {
            let i = choose|i: int| 0 <= i < 4 && n@ == (#[trigger] sjis@[i])@;
            assert(i == 0 || i == 1 || i == 2 || i == 3);
        }
        (String::from_str("windows-31j"), String::from_str("cp932"))
    } else if is_one_of(&n, &eucjp) {
        proof {
            assert(sjis@[0] == "cp932" && sjis@[1] == "windows-31j");
            assert(sjis@[2] == "shift_jis" && sjis@[3] == "sjis");
            let i = choose|i: int| 0 <= i < 2 && n@ == (#[trigger] eucjp@[i])@;
            assert(i == 0 || i == 1);
        }
        (String::from_str("euc-jp"), String::from_str("euc_jp"))
    } else {
        proof {
            assert(sjis@[0] == "cp932" && sjis@[1] == "windows-31j");
            assert(sjis@[2] == "shift_jis" && sjis@[3] == "sjis");
            assert(eucjp@[0] == "euc-jp" && eucjp@[1] == "euc_jp");
        }
        (string_of(&n), string_of(&n))
    }
}

/// Normalises an encoding name given by the user (trimmed and lowercased)
/// and returns the label under which Rust knows it and the one under which
/// Python knows it.
pub fn resolve_encoding_labels(input: &str) -> (res: (String, String))
    ensures
        (res.0@, res.1@) == resolved_labels(input@),
{
    let trimmed = trim_str(input);
    let normalized = to_lowercase(trimmed.as_str());
    encoding_labels_for(normalized.as_str())
}

/// White space around an encoding name does not change its labels.
pub proof fn lemma_labels_ignore_surrounding_space(input: Seq<char>)
    ensures
        resolved_labels(trim(input)) == resolved_labels(input),
{
    lemma_trim_idempotent(input);
}

// ---------------------------------------------------------------------------
// Decoding and encoding with `encoding_rs`
// ---------------------------------------------------------------------------

/// Whether `encoding_rs::Encoding::for_label` knows `label` (after it
/// ASCII-lowercases it and strips ASCII white space, as the Encoding
/// Standard's "get an encoding" does).
pub uninterp spec fn label_names_encoding(label: Seq<char>) -> bool;

/// The text that `Encoding::decode`, of the encoding that `for_label` finds
/// for `label`, makes of `bytes` (with its BOM sniffing and replacement of
/// malformed sequences).
pub uninterp spec fn decoded_with(label: Seq<char>, bytes: Seq<u8>) -> Seq<char>;

/// The bytes that `Encoding::encode`, of the encoding that `for_label` finds
/// for `label`, makes of `text` (in the encoding's output encoding,
/// unmappable characters written as numeric character references).
pub uninterp spec fn encoded_with(label: Seq<char>, text: Seq<char>) -> Seq<u8>;

/// What `String::from_utf8_lossy` makes of `bytes`.
pub uninterp spec fn utf8_lossy(bytes: Seq<u8>) -> Seq<char>;

/// Looks `label` up with `encoding_rs::Encoding::for_label` and, when it
/// names an encoding, decodes `bytes` with that encoding's `decode`. It
/// claims that a text comes back exactly when the label is known (named
/// `label_names_encoding`), and that the text is the one named
/// `decoded_with` of the label and the bytes; the encoding actually used
/// and the error flag are dropped.
#[verifier::external_body]
fn decode_with_label(label: &str, bytes: &[u8]) -> (res: Option<String>)
    ensures
        res is Some <==> label_names_encoding(label@),
        res matches Some(t) ==> t@ == decoded_with(label@, bytes@),
{
    match Encoding::for_label(label.as_bytes()) {
        Some(encoding) => Some(encoding.decode(bytes).0.into_owned()),
        None => None,
    }
}

/// Looks `label` up with `encoding_rs::Encoding::for_label` and, when it
/// names an encoding, encodes `text` with that encoding's `encode`. It
/// claims that bytes come back exactly when the label is known, and that
/// they are the bytes named `encoded_with` of the label and the text.
/// `encode` panics only when the size of its output buffer overflows
/// `usize`, which no text held in memory reaches; that bound is not stated.
#[verifier::external_body]
fn encode_with_label(label: &str, text: &str) -> (res: Option<Vec<u8>>)
    ensures
        res is Some <==> label_names_encoding(label@),
        res matches Some(b) ==> b@ == encoded_with(label@, text@),
{
    match Encoding::for_label(label.as_bytes()) {
        Some(encoding) => Some(encoding.encode(text).0.into_owned()),
        None => None,
    }
}

/// Calls `String::from_utf8_lossy`. Its result is named `utf8_lossy`; for
/// valid UTF-8 the documentation promises the text the bytes encode.
#[verifier::external_body]
fn from_utf8_lossy(bytes: &[u8]) -> (res: String)
    ensures
        res@ == utf8_lossy(bytes@),
        valid_utf8(bytes@) ==> res@ == decode_utf8(bytes@),
{
    String::from_utf8_lossy(bytes).into_owned()
}

/// A line a child process wrote, as the log shows it: read as UTF-8
/// (malformed sequences replaced), without trailing white space.
pub fn output_line_text(bytes: &[u8]) -> (res: String)
    ensures
        res@ == strip_back(utf8_lossy(bytes@), CharClass::WhiteSpace),
{
    let text = from_utf8_lossy(bytes);
    let cs = chars_of(text.as_str());
    string_of(&strip_class(&cs, CharClass::WhiteSpace, false, true))
}

/// The UTF-8 bytes of `text`.
pub fn utf8_bytes(text: &str) -> (res: Vec<u8>)
    ensures
        res@ == encode_utf8(text@),
{
    let b = text.as_bytes();
    let n = b.len();
    let mut res: Vec<u8> = Vec::new();
    for i in 0..n
        invariant
            n == b@.len(),
            res@ == b@.take(i as int),
    {
        res.push(b[i]);
        assert(b@.take(i + 1) == b@.take(i as int).push(b@[i as int]));
    }
    assert(b@.take(n as int) == b@);
    res
}

/// The text of a file read with the encoding the user chose: when the name
/// is not blank and its Rust label is known to `encoding_rs`, that
/// encoding decodes the bytes; otherwise they are read as UTF-8, with
/// malformed sequences replaced.
pub open spec fn file_text(bytes: Seq<u8>, file_encoding: Seq<char>) -> Seq<char> {
    let t = trim(file_encoding);
    let rust = resolved_labels(t).0;
    if t.len() > 0 && label_names_encoding(rust) {
        decoded_with(rust, bytes)
    } else {
        utf8_lossy(bytes)
    }
}

/// The bytes written for `text` in the encoding the user chose: when its
/// Rust label is not empty and known to `encoding_rs`, that encoding
/// encodes the text; otherwise it is written as UTF-8.
pub open spec fn file_bytes(text: Seq<char>, file_encoding: Seq<char>) -> Seq<u8> {
    let rust = resolved_labels(trim(file_encoding)).0;
    if rust.len() > 0 && label_names_encoding(rust) {
        encoded_with(rust, text)
    } else {
        encode_utf8(text)
    }
}

/// Decodes the bytes of a file in the encoding the user chose.
pub fn decode_file_text(bytes: &[u8], file_encoding: &str) -> (res: String)
    ensures
        res@ == file_text(bytes@, file_encoding@),
        trim(file_encoding@).len() == 0 ==> res@ == utf8_lossy(bytes@),
{
    let t = trim_str(file_encoding);
    if !t.as_str().is_empty() {
        let (rust, _) = resolve_encoding_labels(t.as_str());
        match decode_with_label(rust.as_str(), bytes) {
            Some(text) => text,
            None => from_utf8_lossy(bytes),
        }
    } else {
        from_utf8_lossy(bytes)
    }
}

/// Encodes `text` in the encoding the user chose, for writing to a file.
pub fn encode_file_text(text: &str, file_encoding: &str) -> (res: Vec<u8>)
    ensures
        res@ == file_bytes(text@, file_encoding@),
        trim(file_encoding@).len() == 0 ==> res@ == encode_utf8(text@),
{
    let t = trim_str(file_encoding);
    let (rust, _) = resolve_encoding_labels(t.as_str());
    proof {
        if trim(file_encoding@).len() == 0 {
            lemma_trim_idempotent(file_encoding@);
            assert(trim(t@) =~= Seq::<char>::empty());
            assert(ascii_lowercase(trim(t@)) =~= Seq::<char>::empty());
            lemma_empty_label_pair();
        }
    }
    if !rust.as_str().is_empty() {
        match encode_with_label(rust.as_str(), text) {
            Some(b) => b,
            None => utf8_bytes(text),
        }
    } else {
        utf8_bytes(text)
    }
}

// ---------------------------------------------------------------------------
// Laws on labels
// ---------------------------------------------------------------------------

proof fn lemma_lower_keeps_white_space(c: char)
    requires
        (c as u32) < 128,
    ensures
        is_white_space(ascii_lower_char(c)) == is_white_space(c),
        (ascii_lower_char(c) as u32) < 128,
{
}

proof fn lemma_lower_strip_front(s: Seq<char>)
    requires
        is_ascii_text(s),
    ensures
        ascii_lowercase(strip_front(s, CharClass::WhiteSpace)) == strip_front(
            ascii_lowercase(s),
            CharClass::WhiteSpace,
        ),
        is_ascii_text(strip_front(s, CharClass::WhiteSpace)),
    decreases s.len(),
{
    let k = CharClass::WhiteSpace;
    let l = ascii_lowercase(s);
    if s.len() > 0 {
        lemma_lower_keeps_white_space(s[0]);
        assert(l[0] == ascii_lower_char(s[0]));
        assert(l.drop_first() =~= ascii_lowercase(s.drop_first()));
        if in_class(k, s[0]) {
            lemma_lower_strip_front(s.drop_first());
        }
    }
}

proof fn lemma_lower_strip_back(s: Seq<char>)
    requires
        is_ascii_text(s),
    ensures
        ascii_lowercase(strip_back(s, CharClass::WhiteSpace)) == strip_back(
            ascii_lowercase(s),
            CharClass::WhiteSpace,
        ),
        is_ascii_text(strip_back(s, CharClass::WhiteSpace)),
    decreases s.len(),
{
    let k = CharClass::WhiteSpace;
    let l = ascii_lowercase(s);
    if s.len() > 0 {
        lemma_lower_keeps_white_space(s.last());
        assert(l.last() == ascii_lower_char(s.last()));
        assert(l.drop_last() =~= ascii_lowercase(s.drop_last()));
        if in_class(k, s.last()) {
            lemma_lower_strip_back(s.drop_last());
        }
    }
}

proof fn lemma_lower_trim(s: Seq<char>)
    requires
        is_ascii_text(s),
    ensures
        ascii_lowercase(trim(s)) == trim(ascii_lowercase(s)),
        is_ascii_text(trim(s)),
{
    lemma_lower_strip_front(s);
    lemma_lower_strip_back(strip_front(s, CharClass::WhiteSpace));
}

/// For ASCII names, letter case and white space around the name do not
/// change its labels: `y` padded with white space resolves as `x` does
/// when the two agree but for case.
pub proof fn lemma_labels_ignore_case_and_padding(
    x: Seq<char>,
    y: Seq<char>,
    p: Seq<char>,
    q: Seq<char>,
)
    requires
        is_ascii_text(x),
        is_ascii_text(y),
        ascii_lowercase(x) == ascii_lowercase(y),
        all_in_class(p, CharClass::WhiteSpace),
        all_in_class(q, CharClass::WhiteSpace),
    ensures
        resolved_labels(p + y + q) == resolved_labels(x),
{
    lemma_trim_ignores_padding(p, y, q);
    lemma_lower_trim(x);
    lemma_lower_trim(y);
}

proof fn lemma_empty_label_pair()
    ensures
        label_pair(seq![]) == (Seq::<char>::empty(), Seq::<char>::empty()),
{
    reveal_strlit("cp932");
    reveal_strlit("windows-31j");
    reveal_strlit("shift_jis");
    reveal_strlit("sjis");
    reveal_strlit("euc-jp");
    reveal_strlit("euc_jp");
}

proof fn lemma_ascii_lowercase_twice(s: Seq<char>)
    requires
        is_ascii_text(s),
    ensures
        is_ascii_text(ascii_lowercase(s)),
        ascii_lowercase(ascii_lowercase(s)) == ascii_lowercase(s),
{
    assert forall|i: int| 0 <= i < s.len() implies (#[trigger] ascii_lowercase(s)[i] as u32)
        < 128 by {
        lemma_lower_keeps_white_space(s[i]);
    }
    assert(ascii_lowercase(ascii_lowercase(s)) =~= ascii_lowercase(s));
}

/// The labels of an ASCII encoding name do not depend on the letter case
/// in which it is written.
proof fn lemma_labels_ignore_case(e: Seq<char>)
    requires
        is_ascii_text(e),
    ensures
        resolved_labels(trim(e)) == resolved_labels(trim(ascii_lowercase(e))),
        trim(e).len() == trim(ascii_lowercase(e)).len(),
{
    lemma_lower_trim(e);
    let t = trim(e);
    lemma_trim_idempotent(e);
    lemma_ascii_lowercase_twice(t);
    lemma_trim_idempotent(ascii_lowercase(e));
}

/// The letter case of an ASCII encoding name does not matter: a file's
/// bytes are decoded to the same text, and a text is encoded to the same
/// bytes, whether the name is written `CP932`, `Cp932` or `cp932`.
pub proof fn lemma_file_encoding_ignores_case(bytes: Seq<u8>, text: Seq<char>, e: Seq<char>)
    requires
        is_ascii_text(e),
    ensures
        file_text(bytes, e) == file_text(bytes, ascii_lowercase(e)),
        file_bytes(text, e) == file_bytes(text, ascii_lowercase(e)),
{
    lemma_labels_ignore_case(e);
}

/// A file is read in the encoding its name resolves to: for a name of the
/// Shift_JIS family (`cp932`, `sjis`, `shift_jis`, `windows-31j`, in any
/// letter case, with any white space around) its bytes are decoded with
/// the encoding `encoding_rs` finds for `windows-31j`, when it finds one.
pub proof fn lemma_shift_jis_file_text(bytes: Seq<u8>, e: Seq<char>)
    requires
        is_ascii_text(trim(e)),
        ascii_lowercase(trim(e)) == "cp932"@ || ascii_lowercase(trim(e)) == "sjis"@
            || ascii_lowercase(trim(e)) == "shift_jis"@ || ascii_lowercase(trim(e))
            == "windows-31j"@,
    ensures
        file_text(bytes, e) == (if label_names_encoding("windows-31j"@) {
            decoded_with("windows-31j"@, bytes)
        } else {
            utf8_lossy(bytes)
        }),
{
    lemma_trim_idempotent(e);
    reveal_strlit("cp932");
    reveal_strlit("sjis");
    reveal_strlit("shift_jis");
    reveal_strlit("windows-31j");
    assert(ascii_lowercase(trim(e)).len() == trim(e).len());
    assert(resolved_labels(trim(e)).0 == "windows-31j"@);
}

/// White space around an encoding name does not matter either: the file's
/// bytes are decoded and a text encoded as for the bare name.
pub proof fn lemma_file_encoding_ignores_padding(
    bytes: Seq<u8>,
    text: Seq<char>,
    p: Seq<char>,
    e: Seq<char>,
    q: Seq<char>,
)
    requires
        all_in_class(p, CharClass::WhiteSpace),
        all_in_class(q, CharClass::WhiteSpace),
    ensures
        file_text(bytes, p + e + q) == file_text(bytes, e),
        file_bytes(text, p + e + q) == file_bytes(text, e),
{
    lemma_trim_ignores_padding(p, e, q);
}

} // verus!
