//! Character-sequence utilities shared by the rest of the library: the
//! Unicode white space of `char::is_whitespace`, trimming, searching,
//! replacing, splitting into words and lines, and decimal numerals.

use vstd::prelude::*;

verus! {

broadcast use vstd::string::group_string_axioms;

// ---------------------------------------------------------------------------
// Character classes
// ---------------------------------------------------------------------------

/// Unicode `White_Space`, the property that `char::is_whitespace` and
/// `str::trim` use.
pub open spec fn is_white_space(c: char) -> bool {
    let v = c as u32;
    ||| 0x09 <= v <= 0x0D
    ||| v == 0x20
    ||| v == 0x85
    ||| v == 0xA0
    ||| v == 0x1680
    ||| 0x2000 <= v <= 0x200A
    ||| v == 0x2028
    ||| v == 0x2029
    ||| v == 0x202F
    ||| v == 0x205F
    ||| v == 0x3000
}

/// The sets of characters that the library strips from the ends of text.
#[derive(Clone, Copy, PartialEq, Eq, Debug)]
pub enum CharClass {
    /// Unicode white space.
    WhiteSpace,
    /// The full stop `.`.
    Dot,
    /// Characters that decorate a file path in LLM output: `` ` ``, `*`, `"`, `'`.
    PathDecoration,
}

pub open spec fn in_class(k: CharClass, c: char) -> bool {
    match k {
        CharClass::WhiteSpace => is_white_space(c),
        CharClass::Dot => c == '.',
        CharClass::PathDecoration => c == '`' || c == '*' || c == '"' || c == '\'',
    }
}

/// Whether `c` is Unicode white space.
pub fn is_white_space_char(c: char) -> (res: bool)
    ensures
        res == is_white_space(c),
{
    let v = c as u32;
    (0x09 <= v && v <= 0x0D) || v == 0x20 || v == 0x85 || v == 0xA0 || v == 0x1680 || (0x2000
        <= v && v <= 0x200A) || v == 0x2028 || v == 0x2029 || v == 0x202F || v == 0x205F || v
        == 0x3000
}

/// Whether `c` belongs to the class `k`.
pub fn class_contains(k: CharClass, c: char) -> (res: bool)
    ensures
        res == in_class(k, c),
{
    match k {
        CharClass::WhiteSpace => is_white_space_char(c),
        CharClass::Dot => c == '.',
        CharClass::PathDecoration => c == '`' || c == '*' || c == '"' || c == '\'',
    }
}

// ---------------------------------------------------------------------------
// Conversions between strings and character vectors
// ---------------------------------------------------------------------------

/// Appends one character to a string.
#[verifier::external_body]
pub(crate) fn push_char(s: &mut String, c: char)
    ensures
        final(s)@ == old(s)@.push(c),
{
    s.push(c);
}

/// The characters of a string slice, in order.
pub fn chars_of(s: &str) -> (res: Vec<char>)
    ensures
        res@ == s@,
{
    let mut res: Vec<char> = Vec::new();
    for c in it: s.chars()
        invariant
            res@ == it.seq().take(it.index() as int),
    {
        res.push(c);
    }
    res
}

/// A string made of the given characters, in order.
pub fn string_of(cs: &Vec<char>) -> (res: String)
    ensures
        res@ == cs@,
{
    let mut res = String::new();
    let n = cs.len();
    for i in 0..n
        invariant
            n == cs@.len(),
            res@ == cs@.take(i as int),
    {
        push_char(&mut res, cs[i]);
        assert(cs@.take(i + 1) == cs@.take(i as int).push(cs@[i as int]));
    }
    assert(cs@.take(n as int) == cs@);
    res
}

/// Appends the elements of `cs` to `out`.
pub fn push_all<T: Copy>(out: &mut Vec<T>, cs: &Vec<T>)
    ensures
        final(out)@ == old(out)@ + cs@,
{
    let n = cs.len();
    for i in 0..n
        invariant
            n == cs@.len(),
            out@ == old(out)@ + cs@.take(i as int),
    {
        out.push(cs[i]);
        assert(cs@.take(i + 1) == cs@.take(i as int).push(cs@[i as int]));
    }
    assert(cs@.take(n as int) == cs@);
}

/// The characters of `cs` from index `from` up to, not including, `to`.
pub fn sub_chars(cs: &Vec<char>, from: usize, to: usize) -> (res: Vec<char>)
    requires
        from <= to <= cs@.len(),
    ensures
        res@ == cs@.subrange(from as int, to as int),
{
    let mut res: Vec<char> = Vec::new();
    let mut i = from;
    while i < to
        invariant
            from <= i <= to <= cs@.len(),
            res@ == cs@.subrange(from as int, i as int),
        decreases to - i,
    {
        res.push(cs[i]);
        assert(cs@.subrange(from as int, i + 1) == cs@.subrange(from as int, i as int).push(
            cs@[i as int],
        ));
        i = i + 1;
    }
    res
}

// ---------------------------------------------------------------------------
// Stripping characters from the ends (`trim`, `trim_matches`, ...)
// ---------------------------------------------------------------------------

/// `s` without its leading characters of class `k`.
pub open spec fn strip_front(s: Seq<char>, k: CharClass) -> Seq<char>
    decreases s.len(),
{
    if s.len() > 0 && in_class(k, s[0]) {
        strip_front(s.drop_first(), k)
    } else {
        s
    }
}

/// `s` without its trailing characters of class `k`.
pub open spec fn strip_back(s: Seq<char>, k: CharClass) -> Seq<char>
    decreases s.len(),
{
    if s.len() > 0 && in_class(k, s.last()) {
        strip_back(s.drop_last(), k)
    } else {
        s
    }
}

/// `s` without its leading and trailing characters of class `k`.
pub open spec fn strip_both(s: Seq<char>, k: CharClass) -> Seq<char> {
    strip_back(strip_front(s, k), k)
}

/// What `str::trim` leaves of `s`.
pub open spec fn trim(s: Seq<char>) -> Seq<char> {
    strip_both(s, CharClass::WhiteSpace)
}

proof fn lemma_strip_front_at(s: Seq<char>, k: CharClass, i: int)
    requires
        0 <= i <= s.len(),
        forall|j: int| 0 <= j < i ==> in_class(k, #[trigger] s[j]),
        i < s.len() ==> !in_class(k, s[i]),
    ensures
        strip_front(s, k) == s.skip(i),
    decreases i,
{
    if i == 0 {
        assert(s.skip(0) == s);
    } else {
        let t = s.drop_first();
        assert forall|j: int| 0 <= j < i - 1 implies in_class(k, #[trigger] t[j]) by {
            assert(t[j] == s[j + 1]);
        }
        lemma_strip_front_at(t, k, i - 1);
        assert(t.skip(i - 1) == s.skip(i));
    }
}

proof fn lemma_strip_back_at(s: Seq<char>, k: CharClass, i: int)
    requires
        0 <= i <= s.len(),
        forall|j: int| i <= j < s.len() ==> in_class(k, #[trigger] s[j]),
        i > 0 ==> !in_class(k, s[i - 1]),
    ensures
        strip_back(s, k) == s.take(i),
    decreases s.len() - i,
{
    if i == s.len() {
        assert(s.take(i) == s);
    } else {
        let t = s.drop_last();
        assert forall|j: int| i <= j < t.len() implies in_class(k, #[trigger] t[j]) by {
            assert(t[j] == s[j]);
        }
        lemma_strip_back_at(t, k, i);
        assert(t.take(i) == s.take(i));
    }
}

/// `cs` without its leading characters of class `k` (when `front`) and
/// without its trailing ones (when `back`).
pub fn strip_class(cs: &Vec<char>, k: CharClass, front: bool, back: bool) -> (res: Vec<char>)
    ensures
        res@ == ({
            let f = if front {
                strip_front(cs@, k)
            } else {
                cs@
            };
            if back {
                strip_back(f, k)
            } else {
                f
            }
        }),
{
    let n = cs.len();
    let mut i: usize = 0;
    if front {
        while i < n && class_contains(k, cs[i])
            invariant
                i <= n == cs@.len(),
                forall|j: int| 0 <= j < i ==> in_class(k, #[trigger] cs@[j]),
            decreases n - i,
        {
            i = i + 1;
        }
        proof {
            lemma_strip_front_at(cs@, k, i as int);
        }
    } else {
        assert(cs@.skip(0) == cs@);
    }
    let ghost f = cs@.skip(i as int);
    let mut j: usize = n;
    if back {
        while j > i && class_contains(k, cs[j - 1])
            invariant
                i <= j <= n == cs@.len(),
                f == cs@.skip(i as int),
                forall|m: int| j <= m < n ==> in_class(k, #[trigger] cs@[m]),
            decreases j,
        {
            j = j - 1;
        }
        proof {
            assert forall|m: int| (j - i) <= m < f.len() implies in_class(k, #[trigger] f[m]) by {
                assert(f[m] == cs@[m + i]);
            }
            if j > i {
                assert(f[j - i - 1] == cs@[j - 1]);
            }
            lemma_strip_back_at(f, k, j - i);
            assert(f.take(j - i) == cs@.subrange(i as int, j as int));
        }
    } else {
        assert(f == cs@.subrange(i as int, n as int));
    }
    sub_chars(cs, i, j)
}

/// What `str::trim` leaves of `cs`.
pub fn trim_chars(cs: &Vec<char>) -> (res: Vec<char>)
    ensures
        res@ == trim(cs@),
{
    strip_class(cs, CharClass::WhiteSpace, true, true)
}

/// What `str::trim` leaves of `s`, as a string.
pub fn trim_str(s: &str) -> (res: String)
    ensures
        res@ == trim(s@),
{
    let cs = chars_of(s);
    string_of(&trim_chars(&cs))
}

// ---------------------------------------------------------------------------
// Searching
// ---------------------------------------------------------------------------

/// `p` occurs in `s` at index `i`.
pub open spec fn occurs_at(s: Seq<char>, p: Seq<char>, i: int) -> bool {
    0 <= i && i + p.len() <= s.len() && s.subrange(i, i + p.len()) == p
}

/// `p` occurs somewhere in `s` (`str::contains`).
pub open spec fn contains(s: Seq<char>, p: Seq<char>) -> bool {
    exists|i: int| occurs_at(s, p, i)
}

/// `s` begins with `p` (`str::starts_with`).
pub open spec fn starts_with(s: Seq<char>, p: Seq<char>) -> bool {
    occurs_at(s, p, 0)
}

/// Whether `p` occurs in `s` at index `i`.
pub fn matches_at(s: &Vec<char>, p: &Vec<char>, i: usize) -> (res: bool)
    ensures
        res == occurs_at(s@, p@, i as int),
{
    let n = s.len();
    let m = p.len();
    if i > n || m > n - i {
        return false;
    }
    let mut k: usize = 0;
    while k < m
        invariant
            i + m <= n == s@.len(),
            m == p@.len(),
            k <= m,
            forall|q: int| 0 <= q < k ==> s@[i + q] == p@[q],
        decreases m - k,
    {
        if s[i + k] != p[k] {
            assert(s@.subrange(i as int, i + m)[k as int] != p@[k as int]);
            return false;
        }
        k = k + 1;
    }
    assert(s@.subrange(i as int, i + m) =~= p@);
    true
}

/// Whether `p` occurs anywhere in `s`.
pub fn contains_chars(s: &Vec<char>, p: &Vec<char>) -> (res: bool)
    ensures
        res == contains(s@, p@),
{
    let n = s.len();
    for i in 0..n
        invariant
            n == s@.len(),
            forall|q: int| 0 <= q < i ==> !occurs_at(s@, p@, q),
    {
        if matches_at(s, p, i) {
            return true;
        }
    }
    if matches_at(s, p, n) {
        return true;
    }
    assert forall|q: int| !occurs_at(s@, p@, q) by {
        if 0 <= q && q <= n {
        }
    }
    false
}

/// Whether `s` begins with `p`.
pub fn starts_with_chars(s: &Vec<char>, p: &Vec<char>) -> (res: bool)
    ensures
        res == starts_with(s@, p@),
{
    matches_at(s, p, 0)
}

// ---------------------------------------------------------------------------
// Replacing (`str::replace`)
// ---------------------------------------------------------------------------

/// `s` with every occurrence of `p`, found from left to right without
/// overlap, replaced by `r` (`str::replace` for a non-empty pattern).
pub open spec fn replace_all(s: Seq<char>, p: Seq<char>, r: Seq<char>) -> Seq<char>
    decreases s.len(),
{
    if s.len() == 0 || p.len() == 0 {
        s
    } else if starts_with(s, p) {
        r + replace_all(s.skip(p.len() as int), p, r)
    } else {
        seq![s[0]] + replace_all(s.drop_first(), p, r)
    }
}

/// `s` with every occurrence of `p` replaced by `r` (an empty pattern
/// leaves `s` as it is).
pub fn replace_chars(s: &Vec<char>, p: &Vec<char>, r: &Vec<char>) -> (res: Vec<char>)
    ensures
        res@ == replace_all(s@, p@, r@),
{
    let n = s.len();
    let m = p.len();
    if m == 0 {
        let mut out: Vec<char> = Vec::new();
        push_all(&mut out, s);
        assert(out@ == s@);
        return out;
    }
    let mut out: Vec<char> = Vec::new();
    let mut i: usize = 0;
    assert(s@.skip(0) == s@);
    while i < n
        invariant
            n == s@.len(),
            m == p@.len() > 0,
            i <= n,
            out@ + replace_all(s@.skip(i as int), p@, r@) == replace_all(s@, p@, r@),
        decreases n - i,
    {
        let ghost rest = s@.skip(i as int);
        if m <= n - i {
            assert(rest.subrange(0, m as int) =~= s@.subrange(i as int, i + m));
        }
        if matches_at(s, p, i) {
            assert(starts_with(rest, p@));
            assert(rest.skip(m as int) == s@.skip(i + m));
            let ghost before = out@;
            push_all(&mut out, r);
            assert(out@ + replace_all(s@.skip(i + m), p@, r@) == before + (r@ + replace_all(
                rest.skip(m as int),
                p@,
                r@,
            )));
            i = i + m;
        } else {
            assert(!starts_with(rest, p@)) by {
                if starts_with(rest, p@) {
                    assert(occurs_at(s@, p@, i as int));
                }
            }
            assert(rest.drop_first() == s@.skip(i + 1));
            assert(rest[0] == s@[i as int]);
            let ghost before = out@;
            out.push(s[i]);
            assert(out@ + replace_all(s@.skip(i + 1), p@, r@) == before + (seq![s@[i as int]]
                + replace_all(rest.drop_first(), p@, r@)));
            i = i + 1;
        }
    }
    assert(out@ + replace_all(s@.skip(n as int), p@, r@) == out@);
    out
}

/// `s` with every occurrence of `p` replaced by `r`, as strings.
pub fn replace_str(s: &str, p: &str, r: &str) -> (res: String)
    ensures
        res@ == replace_all(s@, p@, r@),
{
    let sc = chars_of(s);
    let pc = chars_of(p);
    let rc = chars_of(r);
    string_of(&replace_chars(&sc, &pc, &rc))
}


// ---------------------------------------------------------------------------
// Words (`str::split_whitespace`)
// ---------------------------------------------------------------------------

/// The words of `s`, given a word `cur` already begun: maximal runs of
/// characters that are not white space.
pub open spec fn words_from(s: Seq<char>, cur: Seq<char>) -> Seq<Seq<char>>
    decreases s.len(),
{
    if s.len() == 0 {
        if cur.len() > 0 {
            seq![cur]
        } else {
            seq![]
        }
    } else if is_white_space(s[0]) {
        (if cur.len() > 0 {
            seq![cur]
        } else {
            seq![]
        }) + words_from(s.drop_first(), seq![])
    } else {
        words_from(s.drop_first(), cur.push(s[0]))
    }
}

/// The words of `s`, as `str::split_whitespace` yields them.
pub open spec fn words(s: Seq<char>) -> Seq<Seq<char>> {
    words_from(s, seq![])
}

/// The words of `s`.
pub fn split_words(s: &Vec<char>) -> (res: Vec<Vec<char>>)
    ensures
        res.deep_view() == words(s@),
{
    let n = s.len();
    let mut out: Vec<Vec<char>> = Vec::new();
    let mut cur: Vec<char> = Vec::new();
    assert(s@.skip(0) == s@);
    for i in 0..n
        invariant
            n == s@.len(),
            out.deep_view() + words_from(s@.skip(i as int), cur@) == words(s@),
    {
        let ghost rest = s@.skip(i as int);
        assert(rest[0] == s@[i as int]);
        assert(rest.drop_first() == s@.skip(i + 1));
        if is_white_space_char(s[i]) {
            if cur.len() > 0 {
                let ghost before = out.deep_view();
                let ghost c = cur@;
                assert(cur.deep_view() =~= cur@);
                out.push(cur);
                assert(out.deep_view() =~= before.push(c));
                assert(before + (seq![cur@] + words_from(s@.skip(i + 1), seq![])) == before.push(
                    cur@,
                ) + words_from(s@.skip(i + 1), seq![]));
            } else {
                assert(seq![] + words_from(s@.skip(i + 1), seq![]) == words_from(
                    s@.skip(i + 1),
                    seq![],
                ));
            }
            cur = Vec::new();
        } else {
            cur.push(s[i]);
        }
    }
    assert(s@.skip(n as int).len() == 0);
    if cur.len() > 0 {
        let ghost before = out.deep_view();
        let ghost c = cur@;
        assert(cur.deep_view() =~= cur@);
        out.push(cur);
        assert(out.deep_view() =~= before.push(c));
        assert(before + seq![c] == before.push(c));
    } else {
        assert(out.deep_view() + seq![] == out.deep_view());
    }
    out
}

/// The words of `s`, as strings.
pub fn split_words_str(s: &str) -> (res: Vec<String>)
    ensures
        res.deep_view() == words(s@),
{
    let cs = chars_of(s);
    let ws = split_words(&cs);
    let mut out: Vec<String> = Vec::new();
    let n = ws.len();
    for i in 0..n
        invariant
            n == ws.deep_view().len(),
            ws.deep_view() == words(s@),
            out.deep_view() == ws.deep_view().take(i as int),
    {
        let w = string_of(&ws[i]);
        let ghost before = out.deep_view();
        assert(ws@[i as int].deep_view() =~= ws@[i as int]@);
        assert(ws.deep_view()[i as int] == ws@[i as int]@);
        let ghost wv = w@;
        out.push(w);
        assert(out.deep_view() =~= before.push(wv));
        assert(ws.deep_view().take(i + 1) =~= ws.deep_view().take(i as int).push(wv));
    }
    assert(ws.deep_view().take(n as int) == ws.deep_view());
    out
}

// ---------------------------------------------------------------------------
// Lines (`str::lines`)
// ---------------------------------------------------------------------------

/// `line` without one trailing carriage return.
pub open spec fn drop_cr<T>(line: Seq<T>, cr: T) -> Seq<T> {
    if line.len() > 0 && line.last() == cr {
        line.drop_last()
    } else {
        line
    }
}

/// The lines of `s`, given a line `cur` already begun: each line feed ends
/// a line, which then loses one trailing carriage return; a last line
/// without a line feed counts only when it is not empty.
pub open spec fn lines_from<T>(s: Seq<T>, cur: Seq<T>, nl: T, cr: T) -> Seq<Seq<T>>
    decreases s.len(),
{
    if s.len() == 0 {
        if cur.len() > 0 {
            seq![cur]
        } else {
            seq![]
        }
    } else if s[0] == nl {
        seq![drop_cr(cur, cr)] + lines_from(s.drop_first(), seq![], nl, cr)
    } else {
        lines_from(s.drop_first(), cur.push(s[0]), nl, cr)
    }
}

/// The lines of a text given by its bytes; line feeds and carriage returns
/// never occur inside a multi-byte UTF-8 sequence, so these are the bytes of
/// the lines that `str::lines` yields.
pub open spec fn byte_lines(s: Seq<u8>) -> Seq<Seq<u8>> {
    lines_from(s, seq![], 10u8, 13u8)
}

/// The lines of a text given by its bytes.
pub fn split_byte_lines(s: &Vec<u8>) -> (res: Vec<Vec<u8>>)
    ensures
        res.deep_view() == byte_lines(s@),
{
    let n = s.len();
    let mut out: Vec<Vec<u8>> = Vec::new();
    let mut cur: Vec<u8> = Vec::new();
    assert(s@.skip(0) == s@);
    for i in 0..n
        invariant
            n == s@.len(),
            out.deep_view() + lines_from(s@.skip(i as int), cur@, 10u8, 13u8) == byte_lines(s@),
    {
        let ghost rest = s@.skip(i as int);
        assert(rest[0] == s@[i as int]);
        assert(rest.drop_first() == s@.skip(i + 1));
        if s[i] == 10u8 {
            let ghost line = cur@;
            let cl = cur.len();
            if cl > 0 && cur[cl - 1] == 13u8 {
                cur.pop();
            }
            assert(cur@ == drop_cr(line, 13u8));
            let ghost before = out.deep_view();
            assert(cur.deep_view() =~= cur@);
            out.push(cur);
            assert(out.deep_view() =~= before.push(drop_cr(line, 13u8)));
            assert(before + (seq![drop_cr(line, 13u8)] + lines_from(
                s@.skip(i + 1),
                seq![],
                10u8,
                13u8,
            )) == out.deep_view() + lines_from(s@.skip(i + 1), seq![], 10u8, 13u8));
            cur = Vec::new();
        } else {
            cur.push(s[i]);
        }
    }
    assert(s@.skip(n as int).len() == 0);
    if cur.len() > 0 {
        let ghost before = out.deep_view();
        let ghost c = cur@;
        assert(cur.deep_view() =~= cur@);
        out.push(cur);
        assert(out.deep_view() =~= before.push(c));
        assert(before + seq![c] == before.push(c));
    } else {
        assert(out.deep_view() + seq![] == out.deep_view());
    }
    out
}

// ---------------------------------------------------------------------------
// Decimal numerals
// ---------------------------------------------------------------------------

/// The decimal numeral of `n`, as `format!("{}", n)` writes it.
pub open spec fn decimal(n: nat) -> Seq<char>
    decreases n,
{
    if n < 10 {
        seq![((n + 48) as u8) as char]
    } else {
        decimal(n / 10).push(((n % 10 + 48) as u8) as char)
    }
}

/// Appends the decimal numeral of `n` to `out`.
pub fn push_decimal(out: &mut String, n: u128)
    ensures
        final(out)@ == old(out)@ + decimal(n as nat),
    decreases n,
{
    if n >= 10 {
        push_decimal(out, n / 10);
    }
    let d = (n % 10) as u8;
    push_char(out, (d + 48) as char);
}

// ---------------------------------------------------------------------------
// Laws
// ---------------------------------------------------------------------------

proof fn lemma_strip_front_shape(s: Seq<char>, k: CharClass)
    ensures
        strip_front(s, k).len() <= s.len(),
        strip_front(s, k) == s.skip(s.len() - strip_front(s, k).len()),
        strip_front(s, k).len() > 0 ==> !in_class(k, strip_front(s, k)[0]),
    decreases s.len(),
{
    if s.len() > 0 && in_class(k, s[0]) {
        lemma_strip_front_shape(s.drop_first(), k);
        let t = strip_front(s.drop_first(), k);
        assert(s.drop_first().skip(s.drop_first().len() - t.len()) =~= s.skip(s.len() - t.len()));
    } else {
        assert(s.skip(0) =~= s);
    }
}

proof fn lemma_strip_back_shape(s: Seq<char>, k: CharClass)
    ensures
        strip_back(s, k).len() <= s.len(),
        strip_back(s, k) == s.take(strip_back(s, k).len() as int),
        strip_back(s, k).len() > 0 ==> !in_class(k, strip_back(s, k).last()),
    decreases s.len(),
{
    if s.len() > 0 && in_class(k, s.last()) {
        lemma_strip_back_shape(s.drop_last(), k);
        let t = strip_back(s.drop_last(), k);
        assert(s.drop_last().take(t.len() as int) =~= s.take(t.len() as int));
    } else {
        assert(s.take(s.len() as int) =~= s);
    }
}

/// What stripping a class from the front leaves does not begin with it.
pub proof fn lemma_strip_front_first(s: Seq<char>, k: CharClass)
    ensures
        strip_front(s, k).len() > 0 ==> !in_class(k, strip_front(s, k)[0]),
{
    lemma_strip_front_shape(s, k);
}

/// Stripping a class from both ends twice strips no more than once.
pub proof fn lemma_strip_both_idempotent(s: Seq<char>, k: CharClass)
    ensures
        strip_both(strip_both(s, k), k) == strip_both(s, k),
{
    let f = strip_front(s, k);
    lemma_strip_front_shape(s, k);
    lemma_strip_back_shape(f, k);
    let t = strip_back(f, k);
    if t.len() > 0 {
        assert(t[0] == f[0]);
        lemma_strip_front_at(t, k, 0);
        assert(t.skip(0) =~= t);
        lemma_strip_back_at(t, k, t.len() as int);
        assert(t.take(t.len() as int) =~= t);
    } else {
        assert(strip_front(t, k) == t);
        assert(strip_back(t, k) == t);
    }
}

/// `str::trim` is idempotent: trimming a trimmed text changes nothing.
pub proof fn lemma_trim_idempotent(s: Seq<char>)
    ensures
        trim(trim(s)) == trim(s),
{
    lemma_strip_both_idempotent(s, CharClass::WhiteSpace);
}

/// Replacing a pattern that does not occur leaves the text as it is.
pub proof fn lemma_replace_absent(s: Seq<char>, p: Seq<char>, r: Seq<char>)
    requires
        !contains(s, p),
    ensures
        replace_all(s, p, r) == s,
    decreases s.len(),
{
    if s.len() > 0 && p.len() > 0 {
        assert(!starts_with(s, p)) by {
            if starts_with(s, p) {
                assert(occurs_at(s, p, 0));
            }
        }
        let t = s.drop_first();
        assert(!contains(t, p)) by {
            if contains(t, p) {
                let i = choose|i: int| occurs_at(t, p, i);
                assert(s.subrange(i + 1, i + 1 + p.len()) =~= t.subrange(i, i + p.len()));
                assert(occurs_at(s, p, i + 1));
            }
        }
        lemma_replace_absent(t, p, r);
        assert(seq![s[0]] + t =~= s);
    }
}

/// Every character of `w` belongs to class `k`.
pub open spec fn all_in_class(w: Seq<char>, k: CharClass) -> bool {
    forall|i: int| 0 <= i < w.len() ==> in_class(k, #[trigger] w[i])
}

pub(crate) proof fn lemma_strip_front_prefix(w: Seq<char>, s: Seq<char>, k: CharClass)
    requires
        all_in_class(w, k),
    ensures
        strip_front(w + s, k) == strip_front(s, k),
    decreases w.len(),
{
    if w.len() > 0 {
        assert(in_class(k, w[0]));
        assert((w + s)[0] == w[0]);
        assert((w + s).drop_first() =~= w.drop_first() + s);
        assert forall|i: int| 0 <= i < w.drop_first().len() implies in_class(
            k,
            #[trigger] w.drop_first()[i],
        ) by {
            assert(w.drop_first()[i] == w[i + 1]);
        }
        lemma_strip_front_prefix(w.drop_first(), s, k);
    } else {
        assert(w + s =~= s);
    }
}

pub(crate) proof fn lemma_strip_back_suffix(s: Seq<char>, w: Seq<char>, k: CharClass)
    requires
        all_in_class(w, k),
    ensures
        strip_back(s + w, k) == strip_back(s, k),
    decreases w.len(),
{
    if w.len() > 0 {
        assert(in_class(k, w.last()));
        assert((s + w).last() == w.last());
        assert((s + w).drop_last() =~= s + w.drop_last());
        assert forall|i: int| 0 <= i < w.drop_last().len() implies in_class(
            k,
            #[trigger] w.drop_last()[i],
        ) by {
            assert(w.drop_last()[i] == w[i]);
        }
        lemma_strip_back_suffix(s, w.drop_last(), k);
    } else {
        assert(s + w =~= s);
    }
}

proof fn lemma_strip_front_all(w: Seq<char>, k: CharClass)
    requires
        all_in_class(w, k),
    ensures
        strip_front(w, k).len() == 0,
{
    lemma_strip_front_prefix(w, seq![], k);
    assert(w + seq![] =~= w);
}

proof fn lemma_strip_front_append(y: Seq<char>, q: Seq<char>, k: CharClass)
    requires
        strip_front(y, k).len() > 0,
    ensures
        strip_front(y + q, k) == strip_front(y, k) + q,
    decreases y.len(),
{
    if y.len() > 0 && in_class(k, y[0]) {
        assert((y + q)[0] == y[0]);
        assert((y + q).drop_first() =~= y.drop_first() + q);
        lemma_strip_front_append(y.drop_first(), q, k);
    } else {
        if y.len() > 0 {
            assert((y + q)[0] == y[0]);
        }
    }
}

/// White space put around a text does not change what `trim` leaves of it.
pub proof fn lemma_trim_ignores_padding(p: Seq<char>, y: Seq<char>, q: Seq<char>)
    requires
        all_in_class(p, CharClass::WhiteSpace),
        all_in_class(q, CharClass::WhiteSpace),
    ensures
        trim(p + y + q) == trim(y),
{
    let k = CharClass::WhiteSpace;
    assert(p + y + q =~= p + (y + q));
    lemma_strip_front_prefix(p, y + q, k);
    if strip_front(y, k).len() > 0 {
        lemma_strip_front_append(y, q, k);
        lemma_strip_back_suffix(strip_front(y, k), q, k);
    } else {
        lemma_strip_front_shape(y, k);
        assert(strip_front(y, k) =~= Seq::<char>::empty());
        assert forall|i: int| 0 <= i < y.len() implies in_class(k, #[trigger] y[i]) by {
            if !in_class(k, y[i]) {
                lemma_strip_front_not_past(y, k, i);
            }
        }
        lemma_strip_front_prefix(y, q, k);
        lemma_strip_front_all(q, k);
    }
}

proof fn lemma_strip_front_not_past(s: Seq<char>, k: CharClass, i: int)
    requires
        0 <= i < s.len(),
        !in_class(k, s[i]),
    ensures
        strip_front(s, k).len() >= s.len() - i,
    decreases s.len(),
{
    if s.len() > 0 && in_class(k, s[0]) {
        assert(i > 0);
        assert(s.drop_first()[i - 1] == s[i]);
        lemma_strip_front_not_past(s.drop_first(), k, i - 1);
    }
}

} // verus!
