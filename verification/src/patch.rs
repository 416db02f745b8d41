//! Patches copied from a web LLM: finding the file each SEARCH/REPLACE
//! block is for, and preparing the patch text so that every block has the
//! line endings of its own file, in the encoding the user chose.

use vstd::prelude::*;
use crate::encoding::{encode_file_text, file_bytes};
use crate::line_endings::{
    convert_line_endings, crlf_to_lf, decide_crlf, has_crlf, has_lf, lemma_crlf_endings_form,
    lemma_lf_endings_keep_lf_text, patch_uses_crlf, with_line_endings,
};
use crate::text::{
    chars_of, contains, contains_chars, push_all, starts_with, starts_with_chars, string_of,
    all_in_class, is_white_space, lemma_strip_back_suffix, lemma_strip_front_prefix, replace_all,
    strip_back, strip_both, strip_class, strip_front, trim, trim_chars, CharClass,
};

verus! {

broadcast use vstd::string::group_string_axioms;

/// The line that begins a SEARCH/REPLACE block.
pub const SEARCH_MARKER: &'static str = "<<<<<<< SEARCH";

/// The line that ends a SEARCH/REPLACE block.
pub const REPLACE_MARKER: &'static str = ">>>>>>> REPLACE";

/// The line between the two halves of a SEARCH/REPLACE block.
pub const DIVIDER: &'static str = "=======";

/// The start of a markdown code fence.
pub const CODE_FENCE: &'static str = "```";

/// A line that can name the target file: not blank, and not a code fence.
pub open spec fn is_path_line(line: Seq<char>) -> bool {
    trim(line).len() > 0 && !starts_with(trim(line), CODE_FENCE@)
}

/// The file path a line names: the line trimmed, then stripped of the
/// backticks, asterisks and quotes around it.
pub open spec fn clean_path(line: Seq<char>) -> Seq<char> {
    strip_both(trim(line), CharClass::PathDecoration)
}

/// A line that begins a SEARCH/REPLACE block.
pub open spec fn is_marker_line(line: Seq<char>) -> bool {
    contains(line, SEARCH_MARKER@)
}

/// A line of the frame of a SEARCH/REPLACE block: its SEARCH marker, its
/// divider or its REPLACE marker. Such a line names no file.
pub open spec fn is_frame_line(line: Seq<char>) -> bool {
    is_marker_line(line) || contains(line, REPLACE_MARKER@) || starts_with(trim(line), DIVIDER@)
}

// ---------------------------------------------------------------------------
// Lines with their line feeds, and blocks
// ---------------------------------------------------------------------------

/// The lines of `s`, given a line `cur` already begun, each with its line
/// feed (`str::split_inclusive('\n')`).
pub open spec fn raw_lines_from(s: Seq<char>, cur: Seq<char>) -> Seq<Seq<char>>
    decreases s.len(),
{
    if s.len() == 0 {
        if cur.len() > 0 {
            seq![cur]
        } else {
            seq![]
        }
    } else if s[0] == '\n' {
        seq![cur.push('\n')] + raw_lines_from(s.drop_first(), seq![])
    } else {
        raw_lines_from(s.drop_first(), cur.push(s[0]))
    }
}

/// The lines of `s`, each with its line feed.
pub open spec fn raw_lines(s: Seq<char>) -> Seq<Seq<char>> {
    raw_lines_from(s, seq![])
}

/// Several texts, one after the other.
pub open spec fn concat_all(ts: Seq<Seq<char>>) -> Seq<char>
    decreases ts.len(),
{
    if ts.len() == 0 {
        seq![]
    } else {
        concat_all(ts.drop_last()) + ts.last()
    }
}

/// Taking one more line into the blocks: a SEARCH marker after the first
/// one begins a new block; any other line goes to the current block (the
/// lines before the first marker belong to the first block).
pub open spec fn block_step(blocks: Seq<Seq<char>>, seen_marker: bool, line: Seq<char>) -> (
    Seq<Seq<char>>,
    bool,
) {
    if is_marker_line(line) && seen_marker {
        (blocks.push(line), true)
    } else if blocks.len() == 0 {
        (seq![line], is_marker_line(line))
    } else {
        (blocks.update(blocks.len() - 1, blocks.last() + line), seen_marker || is_marker_line(line))
    }
}

/// The blocks of the first `n` lines, and whether a marker was among them.
pub open spec fn blocks_prefix(lines: Seq<Seq<char>>, n: nat) -> (Seq<Seq<char>>, bool)
    decreases n,
{
    if n == 0 {
        (seq![], false)
    } else {
        let (b, seen) = blocks_prefix(lines, (n - 1) as nat);
        block_step(b, seen, lines[n - 1])
    }
}

/// The blocks of a patch text: one per SEARCH marker, from the marker's
/// line up to the next marker's line (the first also takes the lines before
/// it); the whole text as one block when it has no marker.
pub open spec fn patch_blocks(response: Seq<char>) -> Seq<Seq<char>> {
    blocks_prefix(raw_lines(response), raw_lines(response).len()).0
}

/// The target of a block whose marker has `last` as the nearest line above
/// it that can name a file, after the targets `targets` of the blocks
/// before it: the path that line names; the previous block's target when
/// that line is part of the previous block's frame (a block written right
/// after another one, without a path line of its own, edits the same file);
/// `None` when there is no such line.
pub open spec fn marker_target(targets: Seq<Option<Seq<char>>>, last: Option<Seq<char>>) -> Option<
    Seq<char>,
> {
    match last {
        Some(p) => if is_frame_line(p) {
            if targets.len() > 0 {
                targets.last()
            } else {
                None
            }
        } else {
            Some(clean_path(p))
        },
        None => None,
    }
}

/// Taking one more line into the targets: at a SEARCH marker, the target
/// that `marker_target` gives; every line that can name a file becomes the
/// nearest such line.
pub open spec fn target_step(
    targets: Seq<Option<Seq<char>>>,
    last: Option<Seq<char>>,
    line: Seq<char>,
) -> (Seq<Option<Seq<char>>>, Option<Seq<char>>) {
    (
        if is_marker_line(line) {
            targets.push(marker_target(targets, last))
        } else {
            targets
        },
        if is_path_line(line) {
            Some(line)
        } else {
            last
        },
    )
}

/// The targets of the first `n` lines, and the nearest line among them that
/// can name a file.
pub open spec fn targets_prefix(lines: Seq<Seq<char>>, n: nat) -> (
    Seq<Option<Seq<char>>>,
    Option<Seq<char>>,
)
    decreases n,
{
    if n == 0 {
        (seq![], None)
    } else {
        let (t, last) = targets_prefix(lines, (n - 1) as nat);
        target_step(t, last, lines[n - 1])
    }
}

/// The file each SEARCH/REPLACE block of `response` is for, in order: the
/// path on the nearest line above its marker that is neither blank nor a
/// code fence, or the previous block's file when that line belongs to the
/// previous block's frame.
pub open spec fn patch_targets(response: Seq<char>) -> Seq<Option<Seq<char>>> {
    targets_prefix(raw_lines(response), raw_lines(response).len()).0
}

/// The target file's bytes for block `j` (`None` when there is none).
pub open spec fn target_at(targets: Seq<Option<Seq<u8>>>, j: int) -> Option<Seq<u8>> {
    if 0 <= j < targets.len() {
        targets[j]
    } else {
        None
    }
}

/// The first `n` blocks, each with the line endings of its own target file
/// (the platform's default where there is none or it has no line ending).
pub open spec fn converted_blocks(
    blocks: Seq<Seq<char>>,
    targets: Seq<Option<Seq<u8>>>,
    os_default_crlf: bool,
    n: nat,
) -> Seq<char>
    decreases n,
{
    if n == 0 {
        seq![]
    } else {
        converted_blocks(blocks, targets, os_default_crlf, (n - 1) as nat) + with_line_endings(
            blocks[n - 1],
            patch_uses_crlf(target_at(targets, n - 1), os_default_crlf),
        )
    }
}

/// The patch text for Aider: every block with the line endings of its own
/// target file.
pub open spec fn patch_text(
    response: Seq<char>,
    targets: Seq<Option<Seq<u8>>>,
    os_default_crlf: bool,
) -> Seq<char> {
    converted_blocks(
        patch_blocks(response),
        targets,
        os_default_crlf,
        patch_blocks(response).len(),
    )
}

// ---------------------------------------------------------------------------
// Executable functions
// ---------------------------------------------------------------------------

/// The lines of `s`, each with its line feed.
pub fn split_raw_lines(s: &Vec<char>) -> (res: Vec<Vec<char>>)
    ensures
        res.deep_view() == raw_lines(s@),
{
    let n = s.len();
    let mut out: Vec<Vec<char>> = Vec::new();
    let mut cur: Vec<char> = Vec::new();
    assert(s@.skip(0) == s@);
    for i in 0..n
        invariant
            n == s@.len(),
            out.deep_view() + raw_lines_from(s@.skip(i as int), cur@) == raw_lines(s@),
    {
        let ghost rest = s@.skip(i as int);
        assert(rest[0] == s@[i as int]);
        assert(rest.drop_first() == s@.skip(i + 1));
        cur.push(s[i]);
        if s[i] == '\n' {
            let ghost before = out.deep_view();
            let ghost c = cur@;
            assert(cur.deep_view() =~= cur@);
            out.push(cur);
            assert(out.deep_view() =~= before.push(c));
            assert(before + (seq![c] + raw_lines_from(s@.skip(i + 1), seq![])) == out.deep_view()
                + raw_lines_from(s@.skip(i + 1), seq![]));
            cur = Vec::new();
        }
    }
    assert(s@.skip(n as int).len() == 0);
    if cur.len() > 0 {
        let ghost before = out.deep_view();
        let ghost c = cur@;
        assert(cur.deep_view() =~= cur@);
        out.push(cur);
        assert(out.deep_view() =~= before.push(c));
        assert(before + seq![c] == before.push(c));
    } else {
        assert(out.deep_view() + seq![] == out.deep_view());
    }
    out
}

fn is_path_chars(line: &Vec<char>, fence: &Vec<char>) -> (res: bool)
    requires
        fence@ == CODE_FENCE@,
    ensures
        res == is_path_line(line@),
{
    let t = trim_chars(line);
    t.len() > 0 && !starts_with_chars(&t, fence)
}

fn is_frame_chars(line: &Vec<char>, marker: &Vec<char>, replace: &Vec<char>, divider: &Vec<char>) -> (res: bool)
    requires
        marker@ == SEARCH_MARKER@,
        replace@ == REPLACE_MARKER@,
        divider@ == DIVIDER@,
    ensures
        res == is_frame_line(line@),
{
    if contains_chars(line, marker) || contains_chars(line, replace) {
        true
    } else {
        let t = trim_chars(line);
        starts_with_chars(&t, divider)
    }
}

fn copy_target(t: &Option<String>) -> (res: Option<String>)
    ensures
        res.deep_view() == t.deep_view(),
{
    match t {
        Some(p) => Some(p.clone()),
        None => None,
    }
}

/// The file each SEARCH/REPLACE block of `response` is for, in order,
/// relative to the target directory.
pub fn patch_target_paths(response: &str) -> (res: Vec<Option<String>>)
    ensures
        res.deep_view() == patch_targets(response@),
{
    let cs = chars_of(response);
    let lines = split_raw_lines(&cs);
    let ghost lv = lines.deep_view();
    let marker = chars_of(SEARCH_MARKER);
    let replace = chars_of(REPLACE_MARKER);
    let divider = chars_of(DIVIDER);
    let fence = chars_of(CODE_FENCE);
    let mut targets: Vec<Option<String>> = Vec::new();
    let mut last: Option<usize> = None;
    let n = lines.len();
    for k in 0..n
        invariant
            n == lv.len(),
            lv == lines.deep_view(),
            lv == raw_lines(response@),
            marker@ == SEARCH_MARKER@,
            replace@ == REPLACE_MARKER@,
            divider@ == DIVIDER@,
            fence@ == CODE_FENCE@,
            last matches Some(j) ==> j < k,
            (
                targets.deep_view(),
                match last {
                    Some(j) => Some(lv[j as int]),
                    None => None,
                },
            ) == targets_prefix(lv, k as nat),
    {
        let line = &lines[k];
        proof {
            assert(lines@[k as int].deep_view() =~= lines@[k as int]@);
        }
        if contains_chars(line, &marker) {
            let entry: Option<String> = match last {
                Some(j) => {
                    proof {
                        assert(lines@[j as int].deep_view() =~= lines@[j as int]@);
                    }
                    if is_frame_chars(&lines[j], &marker, &replace, &divider) {
                        let m = targets.len();
                        if m > 0 {
                            copy_target(&targets[m - 1])
                        } else {
                            None
                        }
                    } else {
                        let t = trim_chars(&lines[j]);
                        let p = strip_class(&t, CharClass::PathDecoration, true, true);
                        Some(string_of(&p))
                    }
                },
                None => None,
            };
            let ghost before = targets.deep_view();
            let ghost ev = entry.deep_view();
            targets.push(entry);
            assert(targets.deep_view() =~= before.push(ev));
        }
        if is_path_chars(line, &fence) {
            last = Some(k);
        }
    }
    targets
}

fn split_blocks(lines: &Vec<Vec<char>>) -> (res: Vec<Vec<char>>)
    ensures
        res.deep_view() == blocks_prefix(lines.deep_view(), lines.deep_view().len()).0,
{
    let ghost lv = lines.deep_view();
    let marker = chars_of(SEARCH_MARKER);
    let mut blocks: Vec<Vec<char>> = Vec::new();
    let mut seen = false;
    let n = lines.len();
    for k in 0..n
        invariant
            n == lv.len(),
            lv == lines.deep_view(),
            marker@ == SEARCH_MARKER@,
            (blocks.deep_view(), seen) == blocks_prefix(lv, k as nat),
    {
        let line = &lines[k];
        proof {
            assert(lines@[k as int].deep_view() =~= lines@[k as int]@);
        }
        let ghost before = blocks.deep_view();
        let is_marker = contains_chars(line, &marker);
        if is_marker && seen {
            let mut b: Vec<char> = Vec::new();
            push_all(&mut b, line);
            let ghost bv = b@;
            assert(b.deep_view() =~= b@);
            blocks.push(b);
            assert(blocks.deep_view() =~= before.push(bv));
        } else if blocks.len() == 0 {
            let mut b: Vec<char> = Vec::new();
            push_all(&mut b, line);
            let ghost bv = b@;
            assert(b.deep_view() =~= b@);
            blocks.push(b);
            assert(blocks.deep_view() =~= seq![bv]);
            seen = is_marker;
        } else {
            let mut b = blocks.pop().unwrap();
            let ghost popped = blocks.deep_view();
            assert(popped =~= before.drop_last());
            assert(b.deep_view() =~= b@);
            push_all(&mut b, line);
            let ghost bv = b@;
            assert(b.deep_view() =~= b@);
            blocks.push(b);
            assert(blocks.deep_view() =~= before.update(before.len() - 1, before.last() + lv[k as int]));
            seen = seen || is_marker;
        }
    }
    blocks
}

/// The bytes of the patch file for `response`: every SEARCH/REPLACE block
/// with the line endings of its own target file (`targets[j]` for block
/// `j`; `None`, or no entry: no target file, or it could not be read, and
/// the platform's default is used), the text encoded in the encoding the
/// user chose.
pub fn prepare_patch_per_file(
    response: &str,
    targets: &Vec<Option<Vec<u8>>>,
    os_default_crlf: bool,
    file_encoding: &str,
) -> (res: Vec<u8>)
    ensures
        res@ == file_bytes(
            patch_text(response@, targets.deep_view(), os_default_crlf),
            file_encoding@,
        ),
{
    let cs = chars_of(response);
    let lines = split_raw_lines(&cs);
    let blocks = split_blocks(&lines);
    let ghost bv = blocks.deep_view();
    let ghost tv = targets.deep_view();
    let mut out: Vec<char> = Vec::new();
    let n = blocks.len();
    for j in 0..n
        invariant
            n == bv.len(),
            bv == blocks.deep_view(),
            bv == patch_blocks(response@),
            tv == targets.deep_view(),
            out@ == converted_blocks(bv, tv, os_default_crlf, j as nat),
    {
        let use_crlf = if j < targets.len() {
            proof {
                match targets@[j as int] {
                    Some(b) => {
                        assert(b.deep_view() =~= b@);
                    },
                    None => {},
                }
            }
            decide_crlf(&targets[j], os_default_crlf)
        } else {
            os_default_crlf
        };
        proof {
            assert(blocks@[j as int].deep_view() =~= blocks@[j as int]@);
        }
        let converted = convert_line_endings(&blocks[j], use_crlf);
        push_all(&mut out, &converted);
    }
    let text = string_of(&out);
    encode_file_text(text.as_str(), file_encoding)
}

// ---------------------------------------------------------------------------
// Laws
// ---------------------------------------------------------------------------

proof fn lemma_concat_push(ts: Seq<Seq<char>>, t: Seq<char>)
    ensures
        concat_all(ts.push(t)) == concat_all(ts) + t,
{
    assert(ts.push(t).drop_last() =~= ts);
}

proof fn lemma_concat_prepend(t: Seq<char>, ts: Seq<Seq<char>>)
    ensures
        concat_all(seq![t] + ts) == t + concat_all(ts),
    decreases ts.len(),
{
    if ts.len() == 0 {
        assert(seq![t] + ts =~= seq![t]);
        assert(seq![t].drop_last() =~= Seq::<Seq<char>>::empty());
        assert(concat_all(seq![t].drop_last()) == Seq::<char>::empty());
        assert(seq![t].last() == t);
        assert(concat_all(seq![t]) =~= t);
        assert(t + concat_all(ts) =~= t);
    } else {
        lemma_concat_prepend(t, ts.drop_last());
        assert((seq![t] + ts).drop_last() =~= seq![t] + ts.drop_last());
        assert((seq![t] + ts).last() == ts.last());
        assert(concat_all(seq![t] + ts) =~= t + concat_all(ts));
    }
}

proof fn lemma_raw_lines_cover(s: Seq<char>, cur: Seq<char>)
    ensures
        concat_all(raw_lines_from(s, cur)) == cur + s,
    decreases s.len(),
{
    if s.len() == 0 {
        if cur.len() > 0 {
            lemma_concat_push(seq![], cur);
            assert(concat_all(Seq::<Seq<char>>::empty()) == Seq::<char>::empty());
            assert(seq![cur] =~= Seq::<Seq<char>>::empty().push(cur));
        }
        assert(cur + s =~= cur);
    } else if s[0] == '\n' {
        lemma_raw_lines_cover(s.drop_first(), seq![]);
        lemma_concat_prepend(cur.push('\n'), raw_lines_from(s.drop_first(), seq![]));
        assert(cur.push('\n') + (seq![] + s.drop_first()) =~= cur + s);
    } else {
        lemma_raw_lines_cover(s.drop_first(), cur.push(s[0]));
        assert(cur.push(s[0]) + s.drop_first() =~= cur + s);
    }
}

proof fn lemma_blocks_cover_lines(lines: Seq<Seq<char>>, n: nat)
    requires
        n <= lines.len(),
    ensures
        concat_all(blocks_prefix(lines, n).0) == concat_all(lines.take(n as int)),
    decreases n,
{
    if n == 0 {
        assert(lines.take(0) =~= Seq::<Seq<char>>::empty());
    } else {
        lemma_blocks_cover_lines(lines, (n - 1) as nat);
        let (b, seen) = blocks_prefix(lines, (n - 1) as nat);
        let l = lines[n - 1];
        assert(lines.take(n as int).drop_last() =~= lines.take(n - 1));
        lemma_concat_push(lines.take(n - 1), l);
        assert(lines.take(n as int) =~= lines.take(n - 1).push(l));
        if is_marker_line(l) && seen {
            lemma_concat_push(b, l);
        } else if b.len() == 0 {
            lemma_concat_push(b, l);
            assert(b.push(l) =~= seq![l]);
        } else {
            let u = b.update(b.len() - 1, b.last() + l);
            assert(u.drop_last() =~= b.drop_last());
            assert(concat_all(u) =~= concat_all(b) + l);
        }
    }
}

/// The blocks of a patch text, one after the other, are the text.
pub proof fn lemma_blocks_cover_response(response: Seq<char>)
    ensures
        concat_all(patch_blocks(response)) == response,
{
    let lines = raw_lines(response);
    lemma_blocks_cover_lines(lines, lines.len());
    assert(lines.take(lines.len() as int) =~= lines);
    lemma_raw_lines_cover(response, seq![]);
    assert(seq![] + response =~= response);
}

proof fn lemma_targets_match_blocks(lines: Seq<Seq<char>>, n: nat)
    requires
        n <= lines.len(),
    ensures
        blocks_prefix(lines, n).1 ==> blocks_prefix(lines, n).0.len() == targets_prefix(
            lines,
            n,
        ).0.len(),
        !blocks_prefix(lines, n).1 ==> targets_prefix(lines, n).0.len() == 0
            && blocks_prefix(lines, n).0.len() <= 1,
    decreases n,
{
    if n > 0 {
        lemma_targets_match_blocks(lines, (n - 1) as nat);
    }
}

/// A patch text with a SEARCH marker has one target per block, so the
/// target of block `j` is entry `j` of the targets.
pub proof fn lemma_one_target_per_block(response: Seq<char>)
    requires
        patch_targets(response).len() > 0,
    ensures
        patch_blocks(response).len() == patch_targets(response).len(),
{
    let lines = raw_lines(response);
    lemma_targets_match_blocks(lines, lines.len());
}

/// Every block whose target file has CRLF line endings gets CRLF line
/// endings: in its part of the patch text, every line feed has a carriage
/// return before it.
pub proof fn lemma_block_for_crlf_file(
    response: Seq<char>,
    targets: Seq<Option<Seq<u8>>>,
    os_default_crlf: bool,
    j: int,
    i: int,
)
    requires
        0 <= j < patch_blocks(response).len(),
        target_at(targets, j) matches Some(b) && has_crlf(b),
        0 <= i < with_line_endings(patch_blocks(response)[j], true).len(),
        with_line_endings(patch_blocks(response)[j], true)[i] == '\n',
    ensures
        with_line_endings(
            patch_blocks(response)[j],
            patch_uses_crlf(target_at(targets, j), os_default_crlf),
        ) == with_line_endings(patch_blocks(response)[j], true),
        i > 0 && with_line_endings(patch_blocks(response)[j], true)[i - 1] == '\r',
{
    lemma_crlf_endings_form(patch_blocks(response)[j], i);
}

/// A block without CRLF pairs whose target file has LF line endings is
/// kept as the LLM wrote it.
pub proof fn lemma_block_for_lf_file(
    response: Seq<char>,
    targets: Seq<Option<Seq<u8>>>,
    os_default_crlf: bool,
    j: int,
)
    requires
        0 <= j < patch_blocks(response).len(),
        target_at(targets, j) matches Some(b) && !has_crlf(b) && has_lf(b),
        !contains(patch_blocks(response)[j], seq!['\r', '\n']),
    ensures
        with_line_endings(
            patch_blocks(response)[j],
            patch_uses_crlf(target_at(targets, j), os_default_crlf),
        ) == patch_blocks(response)[j],
{
    lemma_lf_endings_keep_lf_text(patch_blocks(response)[j]);
}

proof fn lemma_targets_grow(lines: Seq<Seq<char>>, a: nat, b: nat)
    requires
        a <= b <= lines.len(),
    ensures
        targets_prefix(lines, a).0.len() <= targets_prefix(lines, b).0.len(),
        targets_prefix(lines, b).0.take(targets_prefix(lines, a).0.len() as int)
            == targets_prefix(lines, a).0,
    decreases b - a,
{
    if a == b {
        assert(targets_prefix(lines, b).0.take(targets_prefix(lines, a).0.len() as int)
            =~= targets_prefix(lines, a).0);
    } else {
        lemma_targets_grow(lines, a, (b - 1) as nat);
        let t = targets_prefix(lines, (b - 1) as nat).0;
        let k = targets_prefix(lines, a).0.len() as int;
        assert(targets_prefix(lines, b).0.take(k) =~= t.take(k));
    }
}

/// When the LLM writes a file path on the line just above a SEARCH
/// marker, that path is the target of the marker's block: entry `k` of the
/// targets, where `k` counts the markers before it.
pub proof fn lemma_path_above_marker_is_target(response: Seq<char>, i: int)
    requires
        0 < i < raw_lines(response).len(),
        is_marker_line(raw_lines(response)[i]),
        is_path_line(raw_lines(response)[i - 1]),
        !is_frame_line(raw_lines(response)[i - 1]),
    ensures
        ({
            let k = targets_prefix(raw_lines(response), i as nat).0.len() as int;
            &&& k < patch_targets(response).len()
            &&& patch_targets(response)[k] == Some(clean_path(raw_lines(response)[i - 1]))
        }),
{
    let lines = raw_lines(response);
    lemma_targets_grow(lines, (i + 1) as nat, lines.len());
    let k = targets_prefix(lines, i as nat).0.len() as int;
    let t = targets_prefix(lines, (i + 1) as nat).0;
    assert(t[k] == Some(clean_path(lines[i - 1])));
    assert(patch_targets(response).take(t.len() as int)[k] == t[k]);
}

/// A block whose marker has, as its nearest line above that can name a
/// file, a line of the previous block's frame (a block written right after
/// another, with no path line of its own) has the previous block's target.
pub proof fn lemma_block_without_path_keeps_target(response: Seq<char>, i: int)
    requires
        0 <= i < raw_lines(response).len(),
        is_marker_line(raw_lines(response)[i]),
        targets_prefix(raw_lines(response), i as nat).1 matches Some(p) && is_frame_line(p),
        targets_prefix(raw_lines(response), i as nat).0.len() > 0,
    ensures
        ({
            let k = targets_prefix(raw_lines(response), i as nat).0.len() as int;
            &&& k < patch_targets(response).len()
            &&& patch_targets(response)[k] == patch_targets(response)[k - 1]
        }),
{
    let lines = raw_lines(response);
    lemma_targets_grow(lines, (i + 1) as nat, lines.len());
    let k = targets_prefix(lines, i as nat).0.len() as int;
    let t = targets_prefix(lines, (i + 1) as nat).0;
    assert(t[k] == t[k - 1]);
    assert(patch_targets(response).take(t.len() as int)[k] == t[k]);
    assert(patch_targets(response).take(t.len() as int)[k - 1] == t[k - 1]);
}

/// Every SEARCH marker after the first has, as its nearest line above that
/// can name a file, a line of the previous block's frame: the blocks follow
/// one another under the path line written above the first.
pub open spec fn later_blocks_unnamed(lines: Seq<Seq<char>>) -> bool {
    forall|i: int|
        0 <= i < lines.len() && #[trigger] is_marker_line(lines[i]) && targets_prefix(
            lines,
            i as nat,
        ).0.len() > 0 ==> (targets_prefix(lines, i as nat).1 matches Some(p) && is_frame_line(p))
}

proof fn lemma_targets_same(lines: Seq<Seq<char>>, n: nat)
    requires
        n <= lines.len(),
        later_blocks_unnamed(lines),
    ensures
        forall|k: int|
            0 <= k < targets_prefix(lines, n).0.len() ==> #[trigger] targets_prefix(lines, n).0[k]
                == targets_prefix(lines, n).0[0],
    decreases n,
{
    if n > 0 {
        lemma_targets_same(lines, (n - 1) as nat);
        let i = n - 1;
        if is_marker_line(lines[i]) {
            let t = targets_prefix(lines, i as nat).0;
            if t.len() > 0 {
                assert(t.last() == t[t.len() - 1]);
            }
        }
    }
}

/// When the file is named once, above the first block, and the other
/// blocks follow it without a path line of their own, every block has the
/// first block's target.
pub proof fn lemma_unnamed_blocks_share_target(response: Seq<char>)
    requires
        later_blocks_unnamed(raw_lines(response)),
    ensures
        forall|k: int|
            0 <= k < patch_targets(response).len() ==> #[trigger] patch_targets(response)[k]
                == patch_targets(response)[0],
{
    lemma_targets_same(raw_lines(response), raw_lines(response).len());
}

proof fn lemma_replace_concat(a: Seq<char>, b: Seq<char>, p: Seq<char>, r: Seq<char>)
    requires
        p.len() == 1 || (p.len() == 2 && (a.len() == 0 || a.last() != p[0])),
    ensures
        replace_all(a + b, p, r) == replace_all(a, p, r) + replace_all(b, p, r),
    decreases a.len(),
{
    let ab = a + b;
    if a.len() == 0 {
        assert(ab =~= b);
        assert(replace_all(a, p, r) + replace_all(b, p, r) =~= replace_all(b, p, r));
    } else {
        let k = p.len() as int;
        if a.len() >= k {
            assert(ab.subrange(0, k) =~= a.subrange(0, k));
        } else {
            assert(ab[0] == a[0]);
            if starts_with(ab, p) {
                assert(ab.subrange(0, k)[0] == p[0]);
            }
        }
        if a.len() >= k && starts_with(a, p) {
            let rest = a.skip(k);
            assert(ab.skip(k) =~= rest + b);
            if rest.len() > 0 {
                assert(rest.last() == a.last());
            }
            lemma_replace_concat(rest, b, p, r);
            assert(r + (replace_all(rest, p, r) + replace_all(b, p, r)) =~= (r + replace_all(
                rest,
                p,
                r,
            )) + replace_all(b, p, r));
        } else {
            let rest = a.drop_first();
            assert(ab.drop_first() =~= rest + b);
            if rest.len() > 0 {
                assert(rest.last() == a.last());
            }
            lemma_replace_concat(rest, b, p, r);
            assert(seq![a[0]] + (replace_all(rest, p, r) + replace_all(b, p, r)) =~= (seq![a[0]]
                + replace_all(rest, p, r)) + replace_all(b, p, r));
        }
    }
}

proof fn lemma_line_endings_concat(a: Seq<char>, b: Seq<char>, crlf: bool)
    requires
        a.len() == 0 || a.last() == '\n',
    ensures
        with_line_endings(a + b, crlf) == with_line_endings(a, crlf) + with_line_endings(b, crlf),
{
    lemma_replace_concat(a, b, seq!['\r', '\n'], seq!['\n']);
    if crlf {
        lemma_replace_concat(
            crlf_to_lf(a),
            crlf_to_lf(b),
            seq!['\n'],
            seq!['\r', '\n'],
        );
    }
}

spec fn well_ended(ts: Seq<Seq<char>>) -> bool {
    &&& forall|j: int| 0 <= j < ts.len() ==> (#[trigger] ts[j]).len() > 0
    &&& forall|j: int| 0 <= j < ts.len() - 1 ==> (#[trigger] ts[j]).last() == '\n'
}

proof fn lemma_raw_lines_ended(s: Seq<char>, cur: Seq<char>)
    ensures
        well_ended(raw_lines_from(s, cur)),
    decreases s.len(),
{
    if s.len() > 0 {
        if s[0] == '\n' {
            lemma_raw_lines_ended(s.drop_first(), seq![]);
            let r = raw_lines_from(s.drop_first(), seq![]);
            let l = cur.push('\n');
            let all = seq![l] + r;
            assert forall|j: int| 0 <= j < all.len() implies (#[trigger] all[j]).len() > 0 by {
                if j > 0 {
                    assert(all[j] == r[j - 1]);
                }
            }
            assert forall|j: int| 0 <= j < all.len() - 1 implies (#[trigger] all[j]).last()
                == '\n' by {
                if j > 0 {
                    assert(all[j] == r[j - 1]);
                }
            }
        } else {
            lemma_raw_lines_ended(s.drop_first(), cur.push(s[0]));
        }
    }
}

proof fn lemma_blocks_ended(lines: Seq<Seq<char>>, n: nat)
    requires
        n <= lines.len(),
        well_ended(lines),
    ensures
        well_ended(blocks_prefix(lines, n).0),
        n == 0 ==> blocks_prefix(lines, n).0.len() == 0,
        n > 0 ==> blocks_prefix(lines, n).0.len() > 0 && blocks_prefix(lines, n).0.last().last()
            == lines[n - 1].last(),
    decreases n,
{
    if n > 0 {
        lemma_blocks_ended(lines, (n - 1) as nat);
        let (b, seen) = blocks_prefix(lines, (n - 1) as nat);
        let l = lines[n - 1];
        assert(l.len() > 0);
        if b.len() > 0 {
            assert(n - 1 > 0);
            assert(lines[n - 2].last() == '\n');
        }
        if is_marker_line(l) && seen {
            let nb = b.push(l);
            assert forall|j: int| 0 <= j < nb.len() - 1 implies (#[trigger] nb[j]).last()
                == '\n' by {
                assert(nb[j] == b[j]);
            }
        } else if b.len() == 0 {
        } else {
            let nb = b.update(b.len() - 1, b.last() + l);
            assert(nb.last() == b.last() + l);
            assert((b.last() + l).last() == l.last());
            assert forall|j: int| 0 <= j < nb.len() - 1 implies (#[trigger] nb[j]).last()
                == '\n' by {
                assert(nb[j] == b[j]);
            }
        }
    }
}

proof fn lemma_converted_one_mode(
    blocks: Seq<Seq<char>>,
    targets: Seq<Option<Seq<u8>>>,
    os_default_crlf: bool,
    n: nat,
    crlf: bool,
)
    requires
        n <= blocks.len(),
        well_ended(blocks),
        forall|j: int|
            0 <= j < n ==> patch_uses_crlf(#[trigger] target_at(targets, j), os_default_crlf)
                == crlf,
    ensures
        converted_blocks(blocks, targets, os_default_crlf, n) == with_line_endings(
            concat_all(blocks.take(n as int)),
            crlf,
        ),
    decreases n,
{
    if n == 0 {
        assert(blocks.take(0) =~= Seq::<Seq<char>>::empty());
    } else {
        lemma_converted_one_mode(blocks, targets, os_default_crlf, (n - 1) as nat, crlf);
        let before = blocks.take(n - 1);
        assert(blocks.take(n as int).drop_last() =~= before);
        assert(concat_all(blocks.take(n as int)) == concat_all(before) + blocks[n - 1]);
        assert(patch_uses_crlf(target_at(targets, n - 1), os_default_crlf) == crlf);
        if n > 1 {
            assert(before.drop_last() =~= blocks.take(n - 2));
            assert(blocks[n - 2].last() == '\n');
            assert(concat_all(before) == concat_all(before.drop_last()) + blocks[n - 2]);
            assert(concat_all(before).last() == '\n');
        } else {
            assert(before =~= Seq::<Seq<char>>::empty());
        }
        lemma_line_endings_concat(concat_all(before), blocks[n - 1], crlf);
    }
}

/// When every block has the same target file (as when the file is named
/// once, above the first block), the patch text is the whole response
/// with that file's line endings, converted as one text.
pub proof fn lemma_one_target_whole_patch(
    response: Seq<char>,
    targets: Seq<Option<Seq<u8>>>,
    os_default_crlf: bool,
)
    requires
        forall|j: int|
            0 <= j < patch_blocks(response).len() ==> #[trigger] target_at(targets, j)
                == target_at(targets, 0),
    ensures
        patch_text(response, targets, os_default_crlf) == with_line_endings(
            response,
            patch_uses_crlf(target_at(targets, 0), os_default_crlf),
        ),
{
    let lines = raw_lines(response);
    let blocks = patch_blocks(response);
    lemma_raw_lines_ended(response, seq![]);
    lemma_blocks_ended(lines, lines.len());
    lemma_converted_one_mode(
        blocks,
        targets,
        os_default_crlf,
        blocks.len(),
        patch_uses_crlf(target_at(targets, 0), os_default_crlf),
    );
    assert(blocks.take(blocks.len() as int) =~= blocks);
    lemma_blocks_cover_response(response);
}

/// A character that decorates a file path in LLM output: a backtick, an
/// asterisk, a double quote or a single quote.
pub open spec fn is_decoration(c: char) -> bool {
    c == '`' || c == '*' || c == '"' || c == '\''
}

proof fn lemma_decoration_class(d: Seq<char>)
    requires
        forall|i: int| 0 <= i < d.len() ==> is_decoration(#[trigger] d[i]),
    ensures
        all_in_class(d, CharClass::PathDecoration),
        forall|i: int| 0 <= i < d.len() ==> !is_white_space(#[trigger] d[i]),
{
    assert forall|i: int| 0 <= i < d.len() implies !is_white_space(#[trigger] d[i]) by {
        assert(is_decoration(d[i]));
    }
}

/// A path written on a line between white space and decoration characters
/// (backticks, asterisks, double or single quotes) names the path itself:
/// when the path does not begin or end with white space or such a
/// character, the white space and decorations around it are all removed
/// and nothing of the path is.
pub proof fn lemma_clean_path_strips_decoration(
    w1: Seq<char>,
    d1: Seq<char>,
    path: Seq<char>,
    d2: Seq<char>,
    w2: Seq<char>,
)
    requires
        all_in_class(w1, CharClass::WhiteSpace),
        all_in_class(w2, CharClass::WhiteSpace),
        forall|i: int| 0 <= i < d1.len() ==> is_decoration(#[trigger] d1[i]),
        forall|i: int| 0 <= i < d2.len() ==> is_decoration(#[trigger] d2[i]),
        path.len() > 0,
        !is_decoration(path[0]) && !is_white_space(path[0]),
        !is_decoration(path.last()) && !is_white_space(path.last()),
    ensures
        clean_path(w1 + d1 + path + d2 + w2) == path,
{
    let ws = CharClass::WhiteSpace;
    let dc = CharClass::PathDecoration;
    lemma_decoration_class(d1);
    lemma_decoration_class(d2);
    let core = d1 + path + d2;
    assert(w1 + d1 + path + d2 + w2 =~= w1 + (core + w2));
    lemma_strip_front_prefix(w1, core + w2, ws);
    let cw = core + w2;
    if d1.len() > 0 {
        assert(cw[0] == d1[0]);
    } else {
        assert(cw[0] == path[0]);
    }
    assert(strip_front(cw, ws) == cw);
    lemma_strip_back_suffix(core, w2, ws);
    if d2.len() > 0 {
        assert(core.last() == d2.last());
        assert(!is_white_space(d2[d2.len() - 1]));
    } else {
        assert(core.last() == path.last());
    }
    assert(strip_back(core, ws) == core);
    assert(trim(w1 + d1 + path + d2 + w2) == core);
    assert(core =~= d1 + (path + d2));
    lemma_strip_front_prefix(d1, path + d2, dc);
    assert((path + d2)[0] == path[0]);
    assert(strip_front(path + d2, dc) == path + d2);
    lemma_strip_back_suffix(path, d2, dc);
    assert(strip_back(path, dc) == path);
}

} // verus!
