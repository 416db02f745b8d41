//! Line endings: detecting whether a file uses CRLF or LF, and converting
//! text to one of them.

use vstd::prelude::*;
use crate::text::{
    chars_of, contains, lemma_replace_absent, replace_all, replace_chars, string_of,
    starts_with,
};

verus! {

broadcast use vstd::string::group_string_axioms;

/// `s` with every CRLF pair turned into a line feed (`replace("\r\n", "\n")`).
pub open spec fn crlf_to_lf(s: Seq<char>) -> Seq<char> {
    replace_all(s, seq!['\r', '\n'], seq!['\n'])
}

/// `s` with every line feed turned into a CRLF pair (`replace("\n", "\r\n")`).
pub open spec fn lf_to_crlf(s: Seq<char>) -> Seq<char> {
    replace_all(s, seq!['\n'], seq!['\r', '\n'])
}

/// `s` with its line endings made CRLF (when `crlf`) or LF.
pub open spec fn with_line_endings(s: Seq<char>, crlf: bool) -> Seq<char> {
    if crlf {
        lf_to_crlf(crlf_to_lf(s))
    } else {
        crlf_to_lf(s)
    }
}

/// A CRLF pair begins at index `i` of `bytes`.
pub open spec fn crlf_at(bytes: Seq<u8>, i: int) -> bool {
    0 <= i < bytes.len() - 1 && bytes[i] == 13u8 && bytes[i + 1] == 10u8
}

/// Some CRLF pair occurs in `bytes`.
pub open spec fn has_crlf(bytes: Seq<u8>) -> bool {
    exists|i: int| crlf_at(bytes, i)
}

/// Some line feed occurs in `bytes`.
pub open spec fn has_lf(bytes: Seq<u8>) -> bool {
    exists|i: int| 0 <= i < bytes.len() && bytes[i] == 10u8
}

/// Whether a patch for a file should use CRLF: the file's own line endings
/// when it was read and has any (CRLF as soon as one CRLF pair occurs),
/// otherwise the platform's default.
pub open spec fn patch_uses_crlf(file: Option<Seq<u8>>, os_default_crlf: bool) -> bool {
    match file {
        Some(b) => if has_crlf(b) {
            true
        } else if has_lf(b) {
            false
        } else {
            os_default_crlf
        },
        None => os_default_crlf,
    }
}

/// Whether a CRLF pair occurs in `bytes`.
pub fn contains_crlf(bytes: &[u8]) -> (res: bool)
    ensures
        res == has_crlf(bytes@),
{
    let n = bytes.len();
    if n < 2 {
        return false;
    }
    for i in 0..n - 1
        invariant
            n == bytes@.len() >= 2,
            forall|k: int| 0 <= k < i ==> !crlf_at(bytes@, k),
    {
        if bytes[i] == 13u8 && bytes[i + 1] == 10u8 {
            assert(crlf_at(bytes@, i as int));
            return true;
        }
    }
    false
}

/// Whether a line feed occurs in `bytes`.
pub fn contains_lf(bytes: &[u8]) -> (res: bool)
    ensures
        res == has_lf(bytes@),
{
    let n = bytes.len();
    for i in 0..n
        invariant
            n == bytes@.len(),
            forall|k: int| 0 <= k < i ==> bytes@[k] != 10u8,
    {
        if bytes[i] == 10u8 {
            return true;
        }
    }
    false
}

/// Decides whether a patch for a file uses CRLF, from the file's bytes
/// (`None` when there is no target file or it could not be read) and the
/// platform's default.
pub fn decide_crlf(file: &Option<Vec<u8>>, os_default_crlf: bool) -> (res: bool)
    ensures
        res == patch_uses_crlf(
            match file {
                Some(b) => Some(b@),
                None => None,
            },
            os_default_crlf,
        ),
{
    match file {
        Some(b) => {
            if contains_crlf(b.as_slice()) {
                true
            } else if contains_lf(b.as_slice()) {
                false
            } else {
                os_default_crlf
            }
        },
        None => os_default_crlf,
    }
}

/// `cs` with its line endings made CRLF (when `use_crlf`) or LF.
pub fn convert_line_endings(cs: &Vec<char>, use_crlf: bool) -> (res: Vec<char>)
    ensures
        res@ == with_line_endings(cs@, use_crlf),
{
    let crlf: Vec<char> = vec!['\r', '\n'];
    let lf: Vec<char> = vec!['\n'];
    assert(crlf@ == seq!['\r', '\n']);
    assert(lf@ == seq!['\n']);
    let unix = replace_chars(cs, &crlf, &lf);
    if use_crlf {
        replace_chars(&unix, &lf, &crlf)
    } else {
        unix
    }
}

/// `text` with its line endings made CRLF (when `use_crlf`) or LF.
pub fn normalize_line_endings(text: &str, use_crlf: bool) -> (res: String)
    ensures
        res@ == with_line_endings(text@, use_crlf),
{
    let cs = chars_of(text);
    string_of(&convert_line_endings(&cs, use_crlf))
}

// ---------------------------------------------------------------------------
// Laws
// ---------------------------------------------------------------------------

proof fn lemma_starts_with_lf(s: Seq<char>)
    ensures
        starts_with(s, seq!['\n']) <==> (s.len() > 0 && s[0] == '\n'),
{
    if s.len() > 0 && s[0] == '\n' {
        assert(s.subrange(0, 1) =~= seq!['\n']);
    }
    if starts_with(s, seq!['\n']) {
        assert(s.subrange(0, 1)[0] == s[0]);
    }
}

proof fn lemma_starts_with_crlf(s: Seq<char>)
    ensures
        starts_with(s, seq!['\r', '\n']) <==> (s.len() > 1 && s[0] == '\r' && s[1] == '\n'),
{
    if s.len() > 1 && s[0] == '\r' && s[1] == '\n' {
        assert(s.subrange(0, 2) =~= seq!['\r', '\n']);
    }
    if starts_with(s, seq!['\r', '\n']) {
        assert(s.subrange(0, 2)[0] == s[0]);
        assert(s.subrange(0, 2)[1] == s[1]);
    }
}

/// One step of `lf_to_crlf`.
proof fn lemma_lf_to_crlf_step(s: Seq<char>)
    requires
        s.len() > 0,
    ensures
        s[0] == '\n' ==> lf_to_crlf(s) == seq!['\r', '\n'] + lf_to_crlf(s.drop_first()),
        s[0] != '\n' ==> lf_to_crlf(s) == seq![s[0]] + lf_to_crlf(s.drop_first()),
{
    lemma_starts_with_lf(s);
    assert(s.skip(1) =~= s.drop_first());
}

proof fn lemma_lf_to_crlf_first(s: Seq<char>)
    ensures
        lf_to_crlf(s).len() > 0 ==> lf_to_crlf(s)[0] != '\n',
        lf_to_crlf(s).len() == 0 <==> s.len() == 0,
{
    if s.len() > 0 {
        lemma_lf_to_crlf_step(s);
    }
}

/// Turning line feeds into CRLF pairs and CRLF pairs back into line feeds
/// gives back the text, whatever carriage returns it holds.
pub proof fn lemma_crlf_round_trip(s: Seq<char>)
    ensures
        crlf_to_lf(lf_to_crlf(s)) == s,
    decreases s.len(),
{
    if s.len() > 0 {
        lemma_lf_to_crlf_step(s);
        let rest = s.drop_first();
        let t = lf_to_crlf(rest);
        lemma_crlf_round_trip(rest);
        lemma_lf_to_crlf_first(rest);
        if s[0] == '\n' {
            let u = seq!['\r', '\n'] + t;
            lemma_starts_with_crlf(u);
            assert(u.skip(2) =~= t);
            assert(seq!['\n'] + rest =~= s);
        } else {
            let u = seq![s[0]] + t;
            lemma_starts_with_crlf(u);
            assert(u.drop_first() =~= t);
            assert(u[0] == s[0]);
            assert(seq![s[0]] + rest =~= s);
        }
    }
}

/// Making the line endings CRLF twice gives the same text as once.
pub proof fn lemma_crlf_endings_idempotent(s: Seq<char>)
    ensures
        with_line_endings(with_line_endings(s, true), true) == with_line_endings(s, true),
{
    lemma_crlf_round_trip(crlf_to_lf(s));
}

/// Text with CRLF line endings has a carriage return before every line feed.
pub proof fn lemma_crlf_endings_form(s: Seq<char>, i: int)
    requires
        0 <= i < with_line_endings(s, true).len(),
        with_line_endings(s, true)[i] == '\n',
    ensures
        i > 0 && with_line_endings(s, true)[i - 1] == '\r',
{
    lemma_lf_to_crlf_form(crlf_to_lf(s), i);
}

proof fn lemma_lf_to_crlf_form(s: Seq<char>, i: int)
    requires
        0 <= i < lf_to_crlf(s).len(),
        lf_to_crlf(s)[i] == '\n',
    ensures
        i > 0 && lf_to_crlf(s)[i - 1] == '\r',
    decreases s.len(),
{
    if s.len() > 0 {
        lemma_lf_to_crlf_step(s);
        let rest = s.drop_first();
        let t = lf_to_crlf(rest);
        lemma_lf_to_crlf_first(rest);
        if s[0] == '\n' {
            if i >= 2 {
                assert(lf_to_crlf(s)[i] == t[i - 2]);
                lemma_lf_to_crlf_form(rest, i - 2);
            }
        } else {
            if i == 0 {
                assert(lf_to_crlf(s)[0] == s[0]);
            } else {
                assert(lf_to_crlf(s)[i] == t[i - 1]);
                lemma_lf_to_crlf_form(rest, i - 1);
            }
        }
    }
}

/// Text without CRLF pairs keeps its line endings when they are made LF.
pub proof fn lemma_lf_endings_keep_lf_text(s: Seq<char>)
    requires
        !contains(s, seq!['\r', '\n']),
    ensures
        with_line_endings(s, false) == s,
{
    lemma_replace_absent(s, seq!['\r', '\n'], seq!['\n']);
}

/// Every carriage return of `s` is followed by a line feed.
pub open spec fn cr_only_in_crlf(s: Seq<char>) -> bool {
    forall|i: int| 0 <= i < s.len() && #[trigger] s[i] == '\r' ==> i + 1 < s.len() && s[i + 1] == '\n'
}

/// When every carriage return of a text belongs to a CRLF pair, the text
/// with LF line endings holds no carriage return.
pub proof fn lemma_lf_endings_drop_every_cr(s: Seq<char>, i: int)
    requires
        cr_only_in_crlf(s),
        0 <= i < with_line_endings(s, false).len(),
    ensures
        with_line_endings(s, false)[i] != '\r',
    decreases s.len(),
{
    if s.len() > 0 {
        let r = s.drop_first();
        assert(cr_only_in_crlf(r)) by {
            assert forall|j: int| 0 <= j < r.len() && #[trigger] r[j] == '\r' implies j + 1 < r.len()
                && r[j + 1] == '\n' by {
                assert(s[j + 1] == r[j]);
            }
        }
        lemma_starts_with_crlf(s);
        if s.len() > 1 && s[0] == '\r' && s[1] == '\n' {
            let t = s.skip(2);
            assert(cr_only_in_crlf(t)) by {
                assert forall|j: int| 0 <= j < t.len() && #[trigger] t[j] == '\r' implies j + 1 < t.len()
                    && t[j + 1] == '\n' by {
                    assert(s[j + 2] == t[j]);
                }
            }
            if i > 0 {
                lemma_lf_endings_drop_every_cr(t, i - 1);
            }
        } else {
            assert(s[0] != '\r');
            if i > 0 {
                lemma_lf_endings_drop_every_cr(r, i - 1);
            }
        }
    }
}

} // verus!
