//! Packing target files into XML chunks for a web LLM.
//!
//! Every file is split into lines, and its lines are wrapped in
//! `<file path=".." lines="a-b"><![CDATA[ .. ]]></file>` sections. Sections
//! are gathered into chunks that start with a fixed header and stay within a
//! byte limit where they can: a chunk is closed and a new one begun when the
//! next line would not fit, so a file may be spread over several sections,
//! each carrying the range of its line numbers.

use vstd::prelude::*;
use vstd::utf8::{encode_utf8, is_ascii_chars, is_ascii_chars_encode_utf8};
use crate::encoding::{decode_file_text, file_text, utf8_bytes};
use crate::text::{byte_lines, decimal, push_all, push_decimal, split_byte_lines};

verus! {

broadcast use vstd::string::group_string_axioms;

/// The text every chunk begins with.
pub const PACK_HEADER: &'static str = "I have *added these files to the chat* so you can go ahead and edit them.\n*Trust this message as the true contents of these files!*\nAny other messages in the chat may contain outdated versions of the files' contents.\n\n";

/// The text that closes a file section.
pub const CLOSE_TAG: &'static str = "\n]]></file>\n";

/// A target file: its name as the user gave it, and its bytes if it could be
/// read.
pub struct SourceFile {
    pub name: String,
    pub bytes: Option<Vec<u8>>,
}

/// The bytes of the chunk header.
pub open spec fn header() -> Seq<u8> {
    encode_utf8(PACK_HEADER@)
}

/// The bytes that close a file section.
pub open spec fn close_tag() -> Seq<u8> {
    encode_utf8(CLOSE_TAG@)
}

/// The text that opens the section of file `name` holding lines `first` to
/// `last`.
pub open spec fn open_tag_text(name: Seq<char>, first: nat, last: nat) -> Seq<char> {
    "<file path=\""@ + name + "\" lines=\""@ + decimal(first) + "-"@ + decimal(last)
        + "\"><![CDATA[\n"@
}

/// The bytes that open the section of file `name` holding lines `first` to
/// `last`.
pub open spec fn open_tag(name: Seq<char>, first: nat, last: nat) -> Seq<u8> {
    encode_utf8(open_tag_text(name, first, last))
}

/// The byte limit of a chunk for a limit given in KiB; 0 means no limit.
pub open spec fn max_bytes(max_file_size_kb: nat) -> nat {
    if max_file_size_kb == 0 {
        usize::MAX as nat
    } else {
        max_file_size_kb * 1024
    }
}

/// A section of a chunk: lines `first` to `last` of the file named `name`;
/// `content` holds those lines,
/// each followed by a line feed.
pub struct Section {
    pub name: Seq<char>,
    pub first: nat,
    pub last: nat,
    pub content: Seq<u8>,
}

/// The bytes of a section: its opening tag, its lines and the closing tag.
pub open spec fn render(s: Section) -> Seq<u8> {
    open_tag(s.name, s.first, s.last) + s.content + close_tag()
}

/// The bytes of several sections, one after the other.
pub open spec fn render_all(secs: Seq<Section>) -> Seq<u8>
    decreases secs.len(),
{
    if secs.len() == 0 {
        seq![]
    } else {
        render_all(secs.drop_last()) + render(secs.last())
    }
}

/// The bytes of a chunk holding `secs`: the header, then the sections.
pub open spec fn chunk_bytes(secs: Seq<Section>) -> Seq<u8> {
    header() + render_all(secs)
}

/// The chunks made so far: the sections of the one being filled, and the
/// sections of each finished one.
pub struct Packing {
    pub chunk: Seq<Section>,
    pub done: Seq<Seq<Section>>,
}

/// The lines of the current file not yet put in a chunk (each followed by a
/// line feed), the number of the first of them, and the number of the next
/// line.
pub struct Pending {
    pub content: Seq<u8>,
    pub start: nat,
    pub cur: nat,
}

/// Finishing the chunk being filled, if it holds more than the header.
pub open spec fn flush(p: Packing) -> Packing {
    if chunk_bytes(p.chunk).len() > header().len() {
        Packing { chunk: seq![], done: p.done.push(p.chunk) }
    } else {
        p
    }
}

/// The section of file `name` made of the pending lines.
pub open spec fn pending_section(s: Pending, name: Seq<char>) -> Section {
    Section { name, first: s.start, last: (s.cur - 1) as nat, content: s.content }
}

/// Taking one more line of file `name`: when the chunk, the section opened
/// with the line numbers so far, its lines, this line and the closing tag
/// would exceed `max`, the pending lines become a section of the chunk, the
/// chunk is finished, and this line begins the pending lines anew.
pub open spec fn line_step(
    p: Packing,
    s: Pending,
    name: Seq<char>,
    line: Seq<u8>,
    max: nat,
) -> (Packing, Pending) {
    let piece = line.push(10u8);
    if chunk_bytes(p.chunk).len() + open_tag(name, s.start, s.cur).len() + s.content.len()
        + piece.len() + close_tag().len() > max {
        let closed = if s.content.len() > 0 {
            p.chunk.push(pending_section(s, name))
        } else {
            p.chunk
        };
        (
            flush(Packing { chunk: closed, done: p.done }),
            Pending { content: piece, start: s.cur, cur: s.cur + 1 },
        )
    } else {
        (p, Pending { content: s.content + piece, start: s.start, cur: s.cur + 1 })
    }
}

/// The state after the first `n` lines of file `file`.
pub open spec fn lines_step(
    p: Packing,
    name: Seq<char>,
    lines: Seq<Seq<u8>>,
    n: nat,
    max: nat,
) -> (Packing, Pending)
    decreases n,
{
    if n == 0 {
        (p, Pending { content: seq![], start: 1, cur: 1 })
    } else {
        let (q, s) = lines_step(p, name, lines, (n - 1) as nat, max);
        line_step(q, s, name, lines[n - 1], max)
    }
}

/// Making the pending lines of a file its last section; the chunk is
/// finished first when the section would not fit in it.
pub open spec fn finish_file(p: Packing, s: Pending, name: Seq<char>, max: nat) -> Packing {
    if s.content.len() > 0 {
        let sec = pending_section(s, name);
        let q = if chunk_bytes(p.chunk).len() + render(sec).len() > max && chunk_bytes(
            p.chunk,
        ).len() > header().len() {
            flush(p)
        } else {
            p
        };
        Packing { chunk: q.chunk.push(sec), done: q.done }
    } else {
        p
    }
}

/// Packing the file at index `file`, named `name`, whose text has the bytes
/// `content`.
pub open spec fn pack_file(p: Packing, name: Seq<char>, content: Seq<u8>, max: nat) -> Packing {
    let lines = byte_lines(content);
    let (q, s) = lines_step(p, name, lines, lines.len(), max);
    finish_file(q, s, name, max)
}

/// Names of the files with the UTF-8 bytes of their text, or `None` for a
/// file that could not be read.
pub open spec fn pack_inputs(files: Seq<SourceFile>, file_encoding: Seq<char>) -> Seq<
    (Seq<char>, Option<Seq<u8>>),
> {
    Seq::new(
        files.len(),
        |i: int|
            (
                files[i].name@,
                match files[i].bytes {
                    Some(b) => Some(encode_utf8(file_text(b@, file_encoding))),
                    None => None,
                },
            ),
    )
}

/// The state after the first `n` files.
pub open spec fn files_step(files: Seq<(Seq<char>, Option<Seq<u8>>)>, n: nat, max: nat) -> Packing
    decreases n,
{
    if n == 0 {
        Packing { chunk: seq![], done: seq![] }
    } else {
        let p = files_step(files, (n - 1) as nat, max);
        match files[n - 1].1 {
            Some(c) => pack_file(p, files[n - 1].0, c, max),
            None => p,
        }
    }
}

/// The sections of each chunk that packing the files gives.
pub open spec fn packed_sections(files: Seq<(Seq<char>, Option<Seq<u8>>)>, max: nat) -> Seq<
    Seq<Section>,
> {
    flush(files_step(files, files.len(), max)).done
}

/// The chunks that packing the files gives.
pub open spec fn packed_chunks(files: Seq<(Seq<char>, Option<Seq<u8>>)>, max: nat) -> Seq<Seq<u8>> {
    packed_sections(files, max).map_values(|secs: Seq<Section>| chunk_bytes(secs))
}

fn open_tag_bytes(name: &str, first: u128, last: u128) -> (res: Vec<u8>)
    ensures
        res@ == open_tag(name@, first as nat, last as nat),
{
    let mut s = String::from_str("<file path=\"");
    s.append(name);
    s.append("\" lines=\"");
    push_decimal(&mut s, first);
    s.append("-");
    push_decimal(&mut s, last);
    s.append("\"><![CDATA[\n");
    utf8_bytes(s.as_str())
}

fn copy_bytes(b: &Vec<u8>) -> (res: Vec<u8>)
    ensures
        res@ == b@,
{
    let mut res: Vec<u8> = Vec::new();
    push_all(&mut res, b);
    res
}

proof fn lemma_render_all_push(secs: Seq<Section>, sec: Section)
    ensures
        chunk_bytes(secs.push(sec)) == chunk_bytes(secs) + render(sec),
{
    assert(secs.push(sec).drop_last() =~= secs);
    assert(chunk_bytes(secs.push(sec)) =~= chunk_bytes(secs) + render(sec));
}

spec fn chunks_view(done: Seq<Seq<Section>>) -> Seq<Seq<u8>> {
    done.map_values(|secs: Seq<Section>| chunk_bytes(secs))
}

fn flush_chunk(
    chunk: &mut Vec<u8>,
    out: &mut Vec<Vec<u8>>,
    header_bytes: &Vec<u8>,
    Ghost(p): Ghost<Packing>,
)
    requires
        header_bytes@ == header(),
        old(chunk)@ == chunk_bytes(p.chunk),
        old(out).deep_view() == chunks_view(p.done),
    ensures
        final(chunk)@ == chunk_bytes(flush(p).chunk),
        final(out).deep_view() == chunks_view(flush(p).done),
{
    if chunk.len() > header_bytes.len() {
        let mut full = copy_bytes(header_bytes);
        std::mem::swap(chunk, &mut full);
        let ghost before = out.deep_view();
        let ghost fv = full@;
        assert(full.deep_view() =~= full@);
        out.push(full);
        assert(out.deep_view() =~= before.push(fv));
        assert(chunks_view(p.done.push(p.chunk)) =~= chunks_view(p.done).push(chunk_bytes(p.chunk)));
        assert(chunk_bytes(seq![]) =~= header());
    }
}

fn append_section(
    chunk: &mut Vec<u8>,
    name: &str,
    first: u128,
    last: u128,
    content: &Vec<u8>,
    close_bytes: &Vec<u8>,
    Ghost(secs): Ghost<Seq<Section>>,
    )
    requires
        close_bytes@ == close_tag(),
        old(chunk)@ == chunk_bytes(secs),
    ensures
        final(chunk)@ == chunk_bytes(
            secs.push(
                Section {
                    name: name@,
                    first: first as nat,
                    last: last as nat,
                    content: content@,
                },
            ),
        ),
{
    let ghost sec = Section {
        name: name@,
        first: first as nat,
        last: last as nat,
        content: content@,
    };
    let open = open_tag_bytes(name, first, last);
    let ghost before = chunk@;
    push_all(chunk, &open);
    push_all(chunk, content);
    push_all(chunk, close_bytes);
    proof {
        lemma_render_all_push(secs, sec);
        assert(chunk@ =~= before + render(sec));
    }
}

fn pack_one_file(
    chunk: &mut Vec<u8>,
    out: &mut Vec<Vec<u8>>,
    name: &str,
    content: &Vec<u8>,
    max: usize,
    header_bytes: &Vec<u8>,
    close_bytes: &Vec<u8>,
    Ghost(p): Ghost<Packing>,
    )
    requires
        header_bytes@ == header(),
        close_bytes@ == close_tag(),
        old(chunk)@ == chunk_bytes(p.chunk),
        old(out).deep_view() == chunks_view(p.done),
    ensures
        final(chunk)@ == chunk_bytes(pack_file(p, name@, content@, max as nat).chunk),
        final(out).deep_view() == chunks_view(pack_file(p, name@, content@, max as nat).done),
{
    let lines = split_byte_lines(content);
    let ghost lv = lines.deep_view();
    let ghost mut q = p;
    let mut acc: Vec<u8> = Vec::new();
    let mut start: u128 = 1;
    let mut cur: u128 = 1;
    let n = lines.len();
    for j in 0..n
        invariant
            n == lv.len(),
            lv == lines.deep_view(),
            lv == byte_lines(content@),
            header_bytes@ == header(),
            close_bytes@ == close_tag(),
            cur == j + 1,
            1 <= start <= cur,
            chunk@ == chunk_bytes(q.chunk),
            out.deep_view() == chunks_view(q.done),
            (q, Pending { content: acc@, start: start as nat, cur: cur as nat }) == lines_step(
                p,
                name@,
                lv,
                j as nat,
                max as nat,
            ),
    {
        let line = &lines[j];
        proof {
            assert(lines@[j as int].deep_view() =~= lines@[j as int]@);
            assert(line@ == lv[j as int]);
        }
        let est = open_tag_bytes(name, start, cur);
        let total: u128 = chunk.len() as u128 + est.len() as u128 + acc.len() as u128
            + line.len() as u128 + 1 + close_bytes.len() as u128;
        if total > max as u128 {
            let ghost s = Pending { content: acc@, start: start as nat, cur: cur as nat };
            let ghost closed = if acc@.len() > 0 {
                q.chunk.push(pending_section(s, name@))
            } else {
                q.chunk
            };
            if acc.len() > 0 {
                append_section(chunk, name, start, cur - 1, &acc, close_bytes, Ghost(q.chunk));
                acc = Vec::new();
            }
            flush_chunk(chunk, out, header_bytes, Ghost(Packing { chunk: closed, done: q.done }));
            proof {
                q = flush(Packing { chunk: closed, done: q.done });
            }
            start = cur;
        }
        push_all(&mut acc, line);
        acc.push(10u8);
        cur = cur + 1;
    }
    if acc.len() > 0 {
        let ghost s = Pending { content: acc@, start: start as nat, cur: cur as nat };
        let ghost sec = pending_section(s, name@);
        let open = open_tag_bytes(name, start, cur - 1);
        let total: u128 = chunk.len() as u128 + open.len() as u128 + acc.len() as u128
            + close_bytes.len() as u128;
        if total > max as u128 && chunk.len() > header_bytes.len() {
            flush_chunk(chunk, out, header_bytes, Ghost(q));
            proof {
                q = flush(q);
            }
        }
        append_section(chunk, name, start, cur - 1, &acc, close_bytes, Ghost(q.chunk));
    }
}

/// A target file with its text: its name as the user gave it, and its
/// decoded text if it could be read.
pub struct TextFile {
    pub name: String,
    pub text: Option<String>,
}

/// Names of the files with the UTF-8 bytes of their text.
pub open spec fn text_inputs(files: Seq<TextFile>) -> Seq<(Seq<char>, Option<Seq<u8>>)> {
    Seq::new(
        files.len(),
        |i: int|
            (
                files[i].name@,
                match files[i].text {
                    Some(t) => Some(encode_utf8(t@)),
                    None => None,
                },
            ),
    )
}

/// Packs files whose text is known into chunks of at most
/// `max_file_size_kb` KiB (0: no limit) where the lines allow it. A file
/// without text is left out. The chunks are returned as UTF-8 bytes, in
/// order.
pub fn pack_texts(files: &Vec<TextFile>, max_file_size_kb: usize) -> (res: Vec<Vec<u8>>)
    requires
        max_file_size_kb <= usize::MAX / 1024,
    ensures
        res.deep_view() == packed_chunks(text_inputs(files@), max_bytes(max_file_size_kb as nat)),
{
    let max: usize = if max_file_size_kb == 0 {
        usize::MAX
    } else {
        max_file_size_kb * 1024
    };
    let header_bytes = utf8_bytes(PACK_HEADER);
    let close_bytes = utf8_bytes(CLOSE_TAG);
    let ghost inputs = text_inputs(files@);
    let ghost mut q = Packing { chunk: seq![], done: seq![] };
    let mut chunk = copy_bytes(&header_bytes);
    let mut out: Vec<Vec<u8>> = Vec::new();
    assert(out.deep_view() =~= chunks_view(q.done));
    assert(chunk@ =~= chunk_bytes(q.chunk));
    let n = files.len();
    for i in 0..n
        invariant
            n == files@.len(),
            inputs == text_inputs(files@),
            max as nat == max_bytes(max_file_size_kb as nat),
            header_bytes@ == header(),
            close_bytes@ == close_tag(),
            chunk@ == chunk_bytes(q.chunk),
            out.deep_view() == chunks_view(q.done),
            q == files_step(inputs, i as nat, max as nat),
    {
        let f = &files[i];
        match &f.text {
            Some(t) => {
                let bytes = utf8_bytes(t.as_str());
                pack_one_file(
                    &mut chunk,
                    &mut out,
                    f.name.as_str(),
                    &bytes,
                    max,
                    &header_bytes,
                    &close_bytes,
                    Ghost(q),
                );
                proof {
                    q = pack_file(q, f.name@, bytes@, max as nat);
                }
            },
            None => {},
        }
    }
    flush_chunk(&mut chunk, &mut out, &header_bytes, Ghost(q));
    out
}

/// Packs the target files into chunks of at most `max_file_size_kb` KiB
/// (0: no limit) where the lines allow it. A file that could not be read is
/// left out. The text of each file is decoded in `file_encoding` (see
/// `decode_file_text`); the chunks are returned as UTF-8 bytes, in order.
pub fn pack_target_files(files: &Vec<SourceFile>, file_encoding: &str, max_file_size_kb: usize) -> (res:
    Vec<Vec<u8>>)
    requires
        max_file_size_kb <= usize::MAX / 1024,
    ensures
        res.deep_view() == packed_chunks(
            pack_inputs(files@, file_encoding@),
            max_bytes(max_file_size_kb as nat),
        ),
{
    let mut texts: Vec<TextFile> = Vec::new();
    let n = files.len();
    for i in 0..n
        invariant
            n == files@.len(),
            texts@.len() == i,
            forall|k: int| 0 <= k < i ==> #[trigger] text_inputs(texts@)[k] == pack_inputs(files@, file_encoding@)[k],
    {
        let f = &files[i];
        let text = match &f.bytes {
            Some(b) => Some(decode_file_text(b.as_slice(), file_encoding)),
            None => None,
        };
        let name = f.name.clone();
        let ghost before = texts@;
        texts.push(TextFile { name, text });
        assert forall|k: int| 0 <= k < i + 1 implies #[trigger] text_inputs(texts@)[k] == pack_inputs(
            files@,
            file_encoding@,
        )[k] by {
            if k < i {
                assert(texts@[k] == before[k]);
                assert(text_inputs(before)[k] == text_inputs(texts@)[k]);
            }
        }
    }
    assert(text_inputs(texts@) =~= pack_inputs(files@, file_encoding@));
    pack_texts(&texts, max_file_size_kb)
}

// ---------------------------------------------------------------------------
// Laws
// ---------------------------------------------------------------------------

/// A chunk that begins with the header and holds more than it.
pub open spec fn well_begun(c: Seq<u8>) -> bool {
    c.len() > header().len() && c.take(header().len() as int) == header()
}

spec fn begun(p: Packing) -> bool {
    forall|i: int| 0 <= i < p.done.len() ==> chunk_bytes(#[trigger] p.done[i]).len() > header().len()
}

proof fn lemma_flush_begun(p: Packing)
    requires
        begun(p),
    ensures
        begun(flush(p)),
{
    if chunk_bytes(p.chunk).len() > header().len() {
        let q = flush(p);
        assert forall|i: int| 0 <= i < q.done.len() implies chunk_bytes(#[trigger] q.done[i]).len()
            > header().len() by {
            if i < p.done.len() {
                assert(q.done[i] == p.done[i]);
            }
        }
    }
}

proof fn lemma_lines_step_begun(
    p: Packing,
    name: Seq<char>,
    lines: Seq<Seq<u8>>,
    n: nat,
    max: nat,
)
    requires
        begun(p),
    ensures
        begun(lines_step(p, name, lines, n, max).0),
    decreases n,
{
    if n > 0 {
        lemma_lines_step_begun(p, name, lines, (n - 1) as nat, max);
        let (q, s) = lines_step(p, name, lines, (n - 1) as nat, max);
        let closed = if s.content.len() > 0 {
            q.chunk.push(pending_section(s, name))
        } else {
            q.chunk
        };
        lemma_flush_begun(Packing { chunk: closed, done: q.done });
    }
}

proof fn lemma_files_step_begun(files: Seq<(Seq<char>, Option<Seq<u8>>)>, n: nat, max: nat)
    ensures
        begun(files_step(files, n, max)),
    decreases n,
{
    if n > 0 {
        lemma_files_step_begun(files, (n - 1) as nat, max);
        let p = files_step(files, (n - 1) as nat, max);
        match files[n - 1].1 {
            Some(c) => {
                let lines = byte_lines(c);
                lemma_lines_step_begun(p, files[n - 1].0, lines, lines.len(), max);
                let (q, s) = lines_step(p, files[n - 1].0, lines, lines.len(), max);
                lemma_flush_begun(q);
            },
            None => {},
        }
    }
}

/// Every chunk that packing gives begins with the header and holds more
/// than the header: no chunk is empty of file content.
pub proof fn lemma_chunks_begin_with_header(files: Seq<(Seq<char>, Option<Seq<u8>>)>, max: nat)
    ensures
        forall|i: int|
            0 <= i < packed_chunks(files, max).len() ==> well_begun(
                #[trigger] packed_chunks(files, max)[i],
            ),
{
    lemma_files_step_begun(files, files.len(), max);
    lemma_flush_begun(files_step(files, files.len(), max));
    assert forall|i: int| 0 <= i < packed_chunks(files, max).len() implies well_begun(
        #[trigger] packed_chunks(files, max)[i],
    ) by {
        let secs = packed_sections(files, max)[i];
        assert(chunk_bytes(secs).take(header().len() as int) =~= header());
    }
}

/// Line `k` (counted from 1) of file `name` fits in a chunk of its own: the
/// header, the section's opening tag, the line with its line feed and the
/// closing tag stay within `max`.
pub open spec fn line_fits(name: Seq<char>, k: nat, line: Seq<u8>, max: nat) -> bool {
    header().len() + open_tag(name, k, k).len() + line.len() + 1 + close_tag().len() <= max
}

/// Every line of every file that was read fits in a chunk of its own.
pub open spec fn all_lines_fit(files: Seq<(Seq<char>, Option<Seq<u8>>)>, max: nat) -> bool {
    forall|i: int, k: int|
        0 <= i < files.len() && files[i].1 is Some && 0 <= k < byte_lines(files[i].1->0).len()
            ==> line_fits(files[i].0, (k + 1) as nat, #[trigger] byte_lines(files[i].1->0)[k], max)
}

spec fn bounded(p: Packing, max: nat) -> bool {
    &&& (chunk_bytes(p.chunk).len() <= max || chunk_bytes(p.chunk).len() == header().len())
    &&& forall|i: int| 0 <= i < p.done.len() ==> chunk_bytes(#[trigger] p.done[i]).len() <= max
}

spec fn pending_fits(p: Packing, s: Pending, name: Seq<char>, max: nat) -> bool {
    s.content.len() > 0 ==> chunk_bytes(p.chunk).len() + render(
        pending_section(s, name),
    ).len() <= max
}

proof fn lemma_flush_bounded(p: Packing, max: nat)
    requires
        bounded(p, max),
    ensures
        bounded(flush(p), max),
        chunk_bytes(flush(p).chunk).len() == header().len() || flush(p) == p,
{
    if chunk_bytes(p.chunk).len() > header().len() {
        let q = flush(p);
        assert(chunk_bytes(q.chunk) =~= header());
        assert forall|i: int| 0 <= i < q.done.len() implies chunk_bytes(#[trigger] q.done[i]).len()
            <= max by {
            if i < p.done.len() {
                assert(q.done[i] == p.done[i]);
            }
        }
    }
}

proof fn lemma_lines_step_bounded(
    p: Packing,
    name: Seq<char>,
    lines: Seq<Seq<u8>>,
    n: nat,
    max: nat,
)
    requires
        bounded(p, max),
        n <= lines.len(),
        forall|k: int|
            0 <= k < lines.len() ==> line_fits(name, (k + 1) as nat, #[trigger] lines[k], max),
    ensures
        bounded(lines_step(p, name, lines, n, max).0, max),
        pending_fits(
            lines_step(p, name, lines, n, max).0,
            lines_step(p, name, lines, n, max).1,
            name,
            max,
        ),
        lines_step(p, name, lines, n, max).1.cur == n + 1,
    decreases n,
{
    if n > 0 {
        lemma_lines_step_bounded(p, name, lines, (n - 1) as nat, max);
        let (q, s) = lines_step(p, name, lines, (n - 1) as nat, max);
        let line = lines[n - 1];
        assert(line_fits(name, n, line, max));
        let piece = line.push(10u8);
        if chunk_bytes(q.chunk).len() + open_tag(name, s.start, s.cur).len() + s.content.len()
            + piece.len() + close_tag().len() > max {
            let closed = if s.content.len() > 0 {
                q.chunk.push(pending_section(s, name))
            } else {
                q.chunk
            };
            if s.content.len() > 0 {
                lemma_render_all_push(q.chunk, pending_section(s, name));
            }
            let c = Packing { chunk: closed, done: q.done };
            assert(chunk_bytes(closed).len() > header().len() ==> chunk_bytes(closed).len()
                <= max);
            lemma_flush_bounded(c, max);
        }
    }
}

proof fn lemma_files_step_bounded(files: Seq<(Seq<char>, Option<Seq<u8>>)>, n: nat, max: nat)
    requires
        n <= files.len(),
        all_lines_fit(files, max),
    ensures
        bounded(files_step(files, n, max), max),
    decreases n,
{
    if n == 0 {
        assert(chunk_bytes(seq![]) =~= header());
    } else {
        lemma_files_step_bounded(files, (n - 1) as nat, max);
        let p = files_step(files, (n - 1) as nat, max);
        match files[n - 1].1 {
            Some(c) => {
                let lines = byte_lines(c);
                let name = files[n - 1].0;
                assert forall|k: int| 0 <= k < lines.len() implies line_fits(
                    name,
                    (k + 1) as nat,
                    #[trigger] lines[k],
                    max,
                ) by {
                    assert(files[n - 1].1->0 == c);
                    assert(0 <= n - 1 < files.len() && files[n - 1].1 is Some && 0 <= k
                        < byte_lines(files[n - 1].1->0).len());
                }
                lemma_lines_step_bounded(p, name, lines, lines.len(), max);
                let (q, s) = lines_step(p, name, lines, lines.len(), max);
                if s.content.len() > 0 {
                    lemma_render_all_push(q.chunk, pending_section(s, name));
                }
            },
            None => {},
        }
    }
}

/// When every line fits in a chunk of its own, no chunk exceeds the limit:
/// packing splits files only at line boundaries, and starts a new chunk
/// before a line that would make the current one exceed `max`.
pub proof fn lemma_chunks_within_limit(files: Seq<(Seq<char>, Option<Seq<u8>>)>, max: nat)
    requires
        all_lines_fit(files, max),
    ensures
        forall|i: int|
            0 <= i < packed_chunks(files, max).len() ==> (#[trigger] packed_chunks(
                files,
                max,
            )[i]).len() <= max,
{
    lemma_files_step_bounded(files, files.len(), max);
    lemma_flush_bounded(files_step(files, files.len(), max), max);
}

/// Lines joined, each followed by a line feed.
pub open spec fn joined(lines: Seq<Seq<u8>>) -> Seq<u8>
    decreases lines.len(),
{
    if lines.len() == 0 {
        seq![]
    } else {
        joined(lines.drop_last()) + lines.last().push(10u8)
    }
}

/// The file content held by sections, one after the other.
pub open spec fn payload(secs: Seq<Section>) -> Seq<u8>
    decreases secs.len(),
{
    if secs.len() == 0 {
        seq![]
    } else {
        payload(secs.drop_last()) + secs.last().content
    }
}

/// The sections of several chunks, one chunk after the other.
pub open spec fn flatten(chunks: Seq<Seq<Section>>) -> Seq<Section>
    decreases chunks.len(),
{
    if chunks.len() == 0 {
        seq![]
    } else {
        flatten(chunks.drop_last()) + chunks.last()
    }
}

/// The lines of the first `n` files that were read, each followed by a line
/// feed, one file after the other.
pub open spec fn files_text(files: Seq<(Seq<char>, Option<Seq<u8>>)>, n: nat) -> Seq<u8>
    decreases n,
{
    if n == 0 {
        seq![]
    } else {
        files_text(files, (n - 1) as nat) + match files[n - 1].1 {
            Some(c) => joined(byte_lines(c)),
            None => seq![],
        }
    }
}

spec fn all_sections(p: Packing) -> Seq<Section> {
    flatten(p.done) + p.chunk
}

proof fn lemma_payload_concat(a: Seq<Section>, b: Seq<Section>)
    ensures
        payload(a + b) == payload(a) + payload(b),
    decreases b.len(),
{
    if b.len() == 0 {
        assert(a + b =~= a);
    } else {
        lemma_payload_concat(a, b.drop_last());
        assert((a + b).drop_last() =~= a + b.drop_last());
        assert(payload(a + b) =~= payload(a) + payload(b));
    }
}

proof fn lemma_flush_keeps_sections(p: Packing)
    ensures
        all_sections(flush(p)) == all_sections(p),
{
    if chunk_bytes(p.chunk).len() > header().len() {
        let q = flush(p);
        assert(q.done.drop_last() =~= p.done);
        assert(all_sections(q) =~= all_sections(p));
    }
}

proof fn lemma_push_section_payload(p: Packing, sec: Section)
    ensures
        payload(all_sections(Packing { chunk: p.chunk.push(sec), done: p.done })) == payload(
            all_sections(p),
        ) + sec.content,
{
    let a = all_sections(p);
    assert(all_sections(Packing { chunk: p.chunk.push(sec), done: p.done }) =~= a.push(sec));
    assert(a.push(sec).drop_last() =~= a);
}

proof fn lemma_lines_step_payload(
    p: Packing,
    name: Seq<char>,
    lines: Seq<Seq<u8>>,
    n: nat,
    max: nat,
)
    requires
        n <= lines.len(),
    ensures
        payload(all_sections(lines_step(p, name, lines, n, max).0)) + lines_step(
            p,
            name,
            lines,
            n,
            max,
        ).1.content == payload(all_sections(p)) + joined(lines.take(n as int)),
    decreases n,
{
    if n == 0 {
        assert(lines.take(0) =~= Seq::<Seq<u8>>::empty());
        assert(payload(all_sections(p)) + seq![] =~= payload(all_sections(p)));
    } else {
        lemma_lines_step_payload(p, name, lines, (n - 1) as nat, max);
        let (q, s) = lines_step(p, name, lines, (n - 1) as nat, max);
        let piece = lines[n - 1].push(10u8);
        assert(lines.take(n as int).drop_last() =~= lines.take(n - 1));
        assert(joined(lines.take(n as int)) == joined(lines.take(n - 1)) + piece);
        let x = payload(all_sections(q));
        let pp = payload(all_sections(p));
        let jj = joined(lines.take(n - 1));
        assert(x + s.content == pp + jj);
        let (q2, s2) = lines_step(p, name, lines, n, max);
        if chunk_bytes(q.chunk).len() + open_tag(name, s.start, s.cur).len() + s.content.len()
            + piece.len() + close_tag().len() > max {
            let closed = if s.content.len() > 0 {
                q.chunk.push(pending_section(s, name))
            } else {
                q.chunk
            };
            if s.content.len() > 0 {
                lemma_push_section_payload(q, pending_section(s, name));
            } else {
                assert(s.content =~= Seq::<u8>::empty());
                assert(x + s.content =~= x);
            }
            lemma_flush_keeps_sections(Packing { chunk: closed, done: q.done });
            assert(payload(all_sections(q2)) == x + s.content);
            assert(s2.content == piece);
            assert((x + s.content) + piece =~= pp + (jj + piece));
        } else {
            assert(q2 == q);
            assert(s2.content == s.content + piece);
            assert(x + (s.content + piece) =~= (x + s.content) + piece);
            assert((pp + jj) + piece =~= pp + (jj + piece));
        }
    }
}

proof fn lemma_files_step_payload(files: Seq<(Seq<char>, Option<Seq<u8>>)>, n: nat, max: nat)
    requires
        n <= files.len(),
    ensures
        payload(all_sections(files_step(files, n, max))) == files_text(files, n),
    decreases n,
{
    if n == 0 {
        assert(all_sections(files_step(files, 0, max)) =~= Seq::<Section>::empty());
    } else {
        lemma_files_step_payload(files, (n - 1) as nat, max);
        let p = files_step(files, (n - 1) as nat, max);
        match files[n - 1].1 {
            Some(c) => {
                let lines = byte_lines(c);
                let name = files[n - 1].0;
                lemma_lines_step_payload(p, name, lines, lines.len(), max);
                assert(lines.take(lines.len() as int) =~= lines);
                let (q, s) = lines_step(p, name, lines, lines.len(), max);
                if s.content.len() > 0 {
                    let sec = pending_section(s, name);
                    lemma_flush_keeps_sections(q);
                    let r = if chunk_bytes(q.chunk).len() + render(sec).len() > max && chunk_bytes(
                        q.chunk,
                    ).len() > header().len() {
                        flush(q)
                    } else {
                        q
                    };
                    lemma_push_section_payload(r, sec);
                } else {
                    assert(s.content =~= Seq::<u8>::empty());
                    assert(payload(all_sections(q)) + s.content =~= payload(all_sections(q)));
                }
            },
            None => {
                assert(files_text(files, n) =~= files_text(files, (n - 1) as nat));
            },
        }
    }
}

/// Packing loses and adds no file content: the sections of all chunks,
/// one after the other, hold exactly the lines of the files that were read,
/// in order, each followed by a line feed.
pub proof fn lemma_chunks_hold_every_line(files: Seq<(Seq<char>, Option<Seq<u8>>)>, max: nat)
    ensures
        payload(flatten(packed_sections(files, max))) == files_text(files, files.len()),
{
    lemma_files_step_payload(files, files.len(), max);
    lemma_flatten_packed(files, max);
}

proof fn lemma_flatten_packed(files: Seq<(Seq<char>, Option<Seq<u8>>)>, max: nat)
    ensures
        flatten(packed_sections(files, max)) == all_sections(files_step(files, files.len(), max)),
{
    let p = files_step(files, files.len(), max);
    lemma_flush_keeps_sections(p);
    let q = flush(p);
    if chunk_bytes(p.chunk).len() > header().len() {
        assert(q.done.drop_last() =~= p.done);
        assert(all_sections(q) =~= flatten(q.done));
    } else {
        assert(p.chunk.len() == 0) by {
            if p.chunk.len() > 0 {
                assert(render_all(p.chunk).len() > 0) by {
                    assert(p.chunk.drop_last().len() < p.chunk.len());
                    lemma_render_nonempty(p.chunk.last());
                }
            }
        }
        assert(all_sections(q) =~= flatten(q.done));
    }
}

proof fn lemma_render_nonempty(sec: Section)
    ensures
        render(sec).len() > 0,
{
    reveal_strlit("\n]]></file>\n");
    let t = CLOSE_TAG@;
    assert(t.len() == 12);
    assert(close_tag().len() > 0);
}

/// Section `sec` holds exactly lines `first` to `last` (counted from 1) of
/// the file at index `f`, which was read and has the section's name.
pub open spec fn section_of_file(
    files: Seq<(Seq<char>, Option<Seq<u8>>)>,
    f: int,
    sec: Section,
) -> bool {
    &&& 0 <= f < files.len()
    &&& files[f].1 is Some
    &&& sec.name == files[f].0
    &&& 1 <= sec.first <= sec.last <= byte_lines(files[f].1->0).len()
    &&& sec.content == joined(byte_lines(files[f].1->0).subrange(sec.first - 1, sec.last as int))
}

/// A section is faithful to the files: it holds exactly the lines `first`
/// to `last` of a file that was read and has the section's name.
pub open spec fn section_matches(files: Seq<(Seq<char>, Option<Seq<u8>>)>, sec: Section) -> bool {
    exists|f: int| section_of_file(files, f, sec)
}

spec fn all_match(files: Seq<(Seq<char>, Option<Seq<u8>>)>, p: Packing) -> bool {
    &&& forall|j: int| 0 <= j < p.chunk.len() ==> section_matches(files, #[trigger] p.chunk[j])
    &&& forall|i: int, j: int|
        0 <= i < p.done.len() && 0 <= j < p.done[i].len() ==> section_matches(
            files,
            #[trigger] p.done[i][j],
        )
}

proof fn lemma_flush_match(files: Seq<(Seq<char>, Option<Seq<u8>>)>, p: Packing)
    requires
        all_match(files, p),
    ensures
        all_match(files, flush(p)),
{
    if chunk_bytes(p.chunk).len() > header().len() {
        let q = flush(p);
        assert forall|i: int, j: int|
            0 <= i < q.done.len() && 0 <= j < q.done[i].len() implies section_matches(
            files,
            #[trigger] q.done[i][j],
        ) by {
            if i < p.done.len() {
                assert(q.done[i] == p.done[i]);
            } else {
                assert(q.done[i] == p.chunk);
            }
        }
    }
}

proof fn lemma_push_match(files: Seq<(Seq<char>, Option<Seq<u8>>)>, p: Packing, sec: Section)
    requires
        all_match(files, p),
        section_matches(files, sec),
    ensures
        all_match(files, Packing { chunk: p.chunk.push(sec), done: p.done }),
{
    let q = Packing { chunk: p.chunk.push(sec), done: p.done };
    assert forall|j: int| 0 <= j < q.chunk.len() implies section_matches(
        files,
        #[trigger] q.chunk[j],
    ) by {
        if j < p.chunk.len() {
            assert(q.chunk[j] == p.chunk[j]);
        }
    }
}

proof fn lemma_joined_extend(lines: Seq<Seq<u8>>, a: int, b: int)
    requires
        0 <= a <= b < lines.len(),
    ensures
        joined(lines.subrange(a, b + 1)) == joined(lines.subrange(a, b)) + lines[b].push(10u8),
{
    assert(lines.subrange(a, b + 1).drop_last() =~= lines.subrange(a, b));
}

proof fn lemma_lines_step_match(
    files: Seq<(Seq<char>, Option<Seq<u8>>)>,
    p: Packing,
    file: nat,
    n: nat,
    max: nat,
)
    requires
        file < files.len(),
        files[file as int].1 is Some,
        n <= byte_lines(files[file as int].1->0).len(),
        all_match(files, p),
    ensures
        ({
            let lines = byte_lines(files[file as int].1->0);
            let (q, s) = lines_step(p, files[file as int].0, lines, n, max);
            &&& all_match(files, q)
            &&& s.cur == n + 1
            &&& 1 <= s.start <= s.cur
            &&& s.content == joined(lines.subrange(s.start - 1, s.cur - 1))
        }),
    decreases n,
{
    let lines = byte_lines(files[file as int].1->0);
    let name = files[file as int].0;
    if n == 0 {
        assert(lines.subrange(0, 0) =~= Seq::<Seq<u8>>::empty());
    } else {
        lemma_lines_step_match(files, p, file, (n - 1) as nat, max);
        let (q, s) = lines_step(p, name, lines, (n - 1) as nat, max);
        let piece = lines[n - 1].push(10u8);
        if chunk_bytes(q.chunk).len() + open_tag(name, s.start, s.cur).len() + s.content.len()
            + piece.len() + close_tag().len() > max {
            let closed = if s.content.len() > 0 {
                q.chunk.push(pending_section(s, name))
            } else {
                q.chunk
            };
            if s.content.len() > 0 {
                let sec = pending_section(s, name);
                assert(s.start <= s.cur - 1) by {
                    if s.start > s.cur - 1 {
                        assert(lines.subrange(s.start - 1, s.cur - 1) =~= Seq::<Seq<u8>>::empty());
                    }
                }
                assert(section_of_file(files, file as int, sec));
                assert(section_matches(files, sec));
                lemma_push_match(files, q, sec);
            }
            lemma_flush_match(files, Packing { chunk: closed, done: q.done });
            assert(lines.subrange(n - 1, n as int) =~= seq![lines[n - 1]]);
            assert(seq![lines[n - 1]].drop_last() =~= Seq::<Seq<u8>>::empty());
            let one = seq![lines[n - 1]];
            assert(one.last() == lines[n - 1]);
            assert(joined(one.drop_last()) == Seq::<u8>::empty());
            assert(joined(one) =~= piece);
        } else {
            lemma_joined_extend(lines, s.start - 1, n - 1);
        }
    }
}

proof fn lemma_files_step_match(files: Seq<(Seq<char>, Option<Seq<u8>>)>, n: nat, max: nat)
    requires
        n <= files.len(),
    ensures
        all_match(files, files_step(files, n, max)),
    decreases n,
{
    if n > 0 {
        lemma_files_step_match(files, (n - 1) as nat, max);
        let p = files_step(files, (n - 1) as nat, max);
        let file = (n - 1) as nat;
        match files[n - 1].1 {
            Some(c) => {
                let lines = byte_lines(c);
                let name = files[n - 1].0;
                lemma_lines_step_match(files, p, file, lines.len(), max);
                let (q, s) = lines_step(p, name, lines, lines.len(), max);
                if s.content.len() > 0 {
                    let sec = pending_section(s, name);
                    assert(s.start <= s.cur - 1) by {
                        if s.start > s.cur - 1 {
                            assert(lines.subrange(s.start - 1, s.cur - 1) =~= Seq::<
                                Seq<u8>,
                            >::empty());
                        }
                    }
                    assert(section_of_file(files, file as int, sec));
                assert(section_matches(files, sec));
                    lemma_flush_match(files, q);
                    let r = if chunk_bytes(q.chunk).len() + render(sec).len() > max && chunk_bytes(
                        q.chunk,
                    ).len() > header().len() {
                        flush(q)
                    } else {
                        q
                    };
                    lemma_push_match(files, r, sec);
                }
            },
            None => {},
        }
    }
}

/// The line numbers in the tags are right: every section of every chunk
/// belongs to a file that was read, carries its name, and holds exactly
/// that file's lines `first` to `last`.
pub proof fn lemma_sections_hold_their_lines(files: Seq<(Seq<char>, Option<Seq<u8>>)>, max: nat)
    ensures
        forall|i: int, j: int|
            0 <= i < packed_sections(files, max).len() && 0 <= j < packed_sections(
                files,
                max,
            )[i].len() ==> section_matches(files, #[trigger] packed_sections(files, max)[i][j]),
{
    lemma_files_step_match(files, files.len(), max);
    lemma_flush_match(files, files_step(files, files.len(), max));
}

/// The files among the first `n` that were read, in order.
pub open spec fn readable_files(files: Seq<(Seq<char>, Option<Seq<u8>>)>, n: nat) -> Seq<
    (Seq<char>, Option<Seq<u8>>),
>
    decreases n,
{
    if n == 0 {
        seq![]
    } else if files[n - 1].1 is Some {
        readable_files(files, (n - 1) as nat).push(files[n - 1])
    } else {
        readable_files(files, (n - 1) as nat)
    }
}

proof fn lemma_files_step_prefix(
    a: Seq<(Seq<char>, Option<Seq<u8>>)>,
    b: Seq<(Seq<char>, Option<Seq<u8>>)>,
    n: nat,
    max: nat,
)
    requires
        n <= a.len(),
        n <= b.len(),
        forall|i: int| 0 <= i < n ==> a[i] == b[i],
    ensures
        files_step(a, n, max) == files_step(b, n, max),
    decreases n,
{
    if n > 0 {
        lemma_files_step_prefix(a, b, (n - 1) as nat, max);
        assert(a[n - 1] == b[n - 1]);
    }
}

proof fn lemma_files_step_readable(files: Seq<(Seq<char>, Option<Seq<u8>>)>, n: nat, max: nat)
    requires
        n <= files.len(),
    ensures
        files_step(files, n, max) == files_step(
            readable_files(files, n),
            readable_files(files, n).len(),
            max,
        ),
    decreases n,
{
    if n > 0 {
        lemma_files_step_readable(files, (n - 1) as nat, max);
        let r = readable_files(files, (n - 1) as nat);
        if files[n - 1].1 is Some {
            let r2 = r.push(files[n - 1]);
            lemma_files_step_prefix(r2, r, r.len(), max);
            assert(r2[r.len() as int] == files[n - 1]);
        }
    }
}

/// Files that could not be read change nothing: packing gives the same
/// chunks as packing only the files that were read.
pub proof fn lemma_unreadable_files_change_nothing(
    files: Seq<(Seq<char>, Option<Seq<u8>>)>,
    max: nat,
)
    ensures
        packed_chunks(files, max) == packed_chunks(readable_files(files, files.len()), max),
{
    lemma_files_step_readable(files, files.len(), max);
}

proof fn lemma_encode_utf8_concat(a: Seq<char>, b: Seq<char>)
    ensures
        encode_utf8(a + b) == encode_utf8(a) + encode_utf8(b),
    decreases a.len(),
{
    if a.len() == 0 {
        assert(a + b =~= b);
        assert(encode_utf8(a) + encode_utf8(b) =~= encode_utf8(b));
    } else {
        lemma_encode_utf8_concat(a.drop_first(), b);
        assert((a + b).drop_first() =~= a.drop_first() + b);
        assert((a + b)[0] == a[0]);
        assert(encode_utf8(a + b) =~= encode_utf8(a) + encode_utf8(b));
    }
}

proof fn lemma_decimal_ascii(n: nat)
    ensures
        is_ascii_chars(decimal(n)),
    decreases n,
{
    if n >= 10 {
        lemma_decimal_ascii(n / 10);
        let d = decimal(n / 10);
        assert forall|i: int| 0 <= i < decimal(n).len() implies '\0' <= #[trigger] decimal(n)[i]
            <= '\u{7f}' by {
            if i < d.len() {
                assert(decimal(n)[i] == d[i]);
            }
        }
    }
}

proof fn lemma_decimal_len_grows(a: nat, b: nat)
    requires
        a <= b,
    ensures
        decimal(a).len() <= decimal(b).len(),
    decreases b,
{
    if b >= 10 && a >= 10 {
        lemma_decimal_len_grows(a / 10, b / 10);
    }
}

proof fn lemma_open_tag_len(name: Seq<char>, first: nat, last: nat)
    ensures
        open_tag(name, first, last).len() == encode_utf8(
            "<file path=\""@ + name + "\" lines=\""@,
        ).len() + decimal(first).len() + encode_utf8("-"@).len() + decimal(last).len()
            + encode_utf8("\"><![CDATA[\n"@).len(),
{
    let a = "<file path=\""@ + name + "\" lines=\""@;
    let f = decimal(first);
    let l = decimal(last);
    let dash = "-"@;
    let tail = "\"><![CDATA[\n"@;
    assert(open_tag_text(name, first, last) == a + f + dash + l + tail);
    lemma_encode_utf8_concat(a + f + dash + l, tail);
    lemma_encode_utf8_concat(a + f + dash, l);
    lemma_encode_utf8_concat(a + f, dash);
    lemma_encode_utf8_concat(a, f);
    lemma_decimal_ascii(first);
    lemma_decimal_ascii(last);
    is_ascii_chars_encode_utf8(f);
    is_ascii_chars_encode_utf8(l);
}

proof fn lemma_open_tag_grows(name: Seq<char>, f1: nat, l1: nat, f2: nat, l2: nat)
    requires
        f1 <= f2,
        l1 <= l2,
    ensures
        open_tag(name, f1, l1).len() <= open_tag(name, f2, l2).len(),
{
    lemma_open_tag_len(name, f1, l1);
    lemma_open_tag_len(name, f2, l2);
    lemma_decimal_len_grows(f1, f2);
    lemma_decimal_len_grows(l1, l2);
}

proof fn lemma_joined_take(lines: Seq<Seq<u8>>, k: int)
    requires
        0 < k <= lines.len(),
    ensures
        joined(lines.take(k)) == joined(lines.take(k - 1)) + lines[k - 1].push(10u8),
{
    assert(lines.take(k).drop_last() =~= lines.take(k - 1));
}

proof fn lemma_joined_take_len(lines: Seq<Seq<u8>>, k: int)
    requires
        0 <= k <= lines.len(),
    ensures
        joined(lines.take(k)).len() <= joined(lines).len(),
    decreases lines.len(),
{
    if k == lines.len() {
        assert(lines.take(k) =~= lines);
    } else {
        lemma_joined_take_len(lines.drop_last(), k);
        assert(lines.drop_last().take(k) =~= lines.take(k));
    }
}

/// The room the text of a file named `name` takes in a chunk when it is
/// kept in one section: the opening tag with line numbers one past its
/// last line, its lines with their line feeds, and the closing tag.
pub open spec fn file_room(name: Seq<char>, content: Seq<u8>) -> nat {
    let n = byte_lines(content).len();
    open_tag(name, n + 1, n + 1).len() + joined(byte_lines(content)).len() + close_tag().len()
}

/// The room the first `n` files take in a chunk, each kept in one section;
/// a file that was not read takes none.
pub open spec fn files_room(files: Seq<(Seq<char>, Option<Seq<u8>>)>, n: nat) -> nat
    decreases n,
{
    if n == 0 {
        0
    } else {
        files_room(files, (n - 1) as nat) + match files[n - 1].1 {
            Some(c) => file_room(files[n - 1].0, c),
            None => 0,
        }
    }
}

proof fn lemma_files_room_grows(files: Seq<(Seq<char>, Option<Seq<u8>>)>, a: nat, b: nat)
    requires
        a <= b,
    ensures
        files_room(files, a) <= files_room(files, b),
    decreases b,
{
    if a < b {
        lemma_files_room_grows(files, a, (b - 1) as nat);
    }
}

proof fn lemma_lines_step_whole(
    p: Packing,
    name: Seq<char>,
    lines: Seq<Seq<u8>>,
    k: nat,
    max: nat,
)
    requires
        k <= lines.len(),
        chunk_bytes(p.chunk).len() + open_tag(name, lines.len() + 1, lines.len() + 1).len()
            + joined(lines).len() + close_tag().len() <= max,
    ensures
        lines_step(p, name, lines, k, max) == (
            p,
            Pending { content: joined(lines.take(k as int)), start: 1, cur: k + 1 },
        ),
    decreases k,
{
    if k == 0 {
        assert(lines.take(0) =~= Seq::<Seq<u8>>::empty());
    } else {
        lemma_lines_step_whole(p, name, lines, (k - 1) as nat, max);
        lemma_joined_take(lines, k as int);
        lemma_joined_take_len(lines, k as int);
        lemma_open_tag_grows(name, 1, k, lines.len() + 1, lines.len() + 1);
    }
}

proof fn lemma_files_step_whole(files: Seq<(Seq<char>, Option<Seq<u8>>)>, n: nat, max: nat)
    requires
        n <= files.len(),
        header().len() + files_room(files, files.len()) <= max,
    ensures
        files_step(files, n, max).done.len() == 0,
        chunk_bytes(files_step(files, n, max).chunk).len() <= header().len() + files_room(
            files,
            n,
        ),
        (exists|j: int| 0 <= j < n && line_count(#[trigger] files[j]) > 0) ==> chunk_bytes(
            files_step(files, n, max).chunk,
        ).len() > header().len(),
    decreases n,
{
    if n == 0 {
        assert(chunk_bytes(seq![]) =~= header());
    } else {
        lemma_files_step_whole(files, (n - 1) as nat, max);
        if exists|j: int| 0 <= j < n && line_count(#[trigger] files[j]) > 0 {
            let j = choose|j: int| 0 <= j < n && line_count(#[trigger] files[j]) > 0;
            if j < n - 1 {
                assert(exists|j2: int| 0 <= j2 < n - 1 && line_count(#[trigger] files[j2]) > 0);
            }
        }
        lemma_files_room_grows(files, n, files.len());
        let p = files_step(files, (n - 1) as nat, max);
        match files[n - 1].1 {
            Some(c) => {
                let name = files[n - 1].0;
                let lines = byte_lines(c);
                let len = lines.len();
                lemma_lines_step_whole(p, name, lines, len, max);
                assert(lines.take(len as int) =~= lines);
                let s = Pending { content: joined(lines), start: 1, cur: len + 1 };
                if len > 0 {
                    assert(lines.drop_last().len() < lines.len());
                    assert(joined(lines).len() > 0);
                }
                if s.content.len() > 0 {
                    let sec = pending_section(s, name);
                    lemma_open_tag_grows(name, 1, len, len + 1, len + 1);
                    lemma_render_all_push(p.chunk, sec);
                    lemma_render_nonempty(sec);
                }
            },
            None => {},
        }
    }
}

/// When the text of all files, each kept in one section, fits under the
/// limit together with the header, packing makes at most one chunk.
pub proof fn lemma_one_chunk_when_all_fit(files: Seq<(Seq<char>, Option<Seq<u8>>)>, max: nat)
    requires
        header().len() + files_room(files, files.len()) <= max,
    ensures
        packed_chunks(files, max).len() <= 1,
{
    lemma_files_step_whole(files, files.len(), max);
}

/// With no limit (a limit of 0 KiB), packing puts every file into one
/// chunk, for any text that fits in memory; there is exactly one chunk
/// when some file that was read has a line.
pub proof fn lemma_no_limit_one_chunk(files: Seq<(Seq<char>, Option<Seq<u8>>)>)
    requires
        header().len() + files_room(files, files.len()) <= usize::MAX,
    ensures
        packed_chunks(files, max_bytes(0)).len() <= 1,
        (exists|j: int| 0 <= j < files.len() && line_count(#[trigger] files[j]) > 0)
            ==> packed_chunks(files, max_bytes(0)).len() == 1,
{
    lemma_files_step_whole(files, files.len(), max_bytes(0));
}

/// The number of lines of a file, or 0 for a file that was not read.
pub open spec fn line_count(file: (Seq<char>, Option<Seq<u8>>)) -> nat {
    match file.1 {
        Some(c) => byte_lines(c).len(),
        None => 0,
    }
}

/// The sections `secs`, in order, cover the first `n` files and lines 1 to
/// `next - 1` of file `n`: each file's lines are split into ranges that
/// follow one another without gap or overlap, one section per range,
/// named as the file, the files one after the other.
pub open spec fn covers(
    secs: Seq<Section>,
    files: Seq<(Seq<char>, Option<Seq<u8>>)>,
    n: nat,
    next: nat,
) -> bool
    decreases n, next,
{
    if next > 1 {
        &&& secs.len() > 0
        &&& n < files.len()
        &&& secs.last().name == files[n as int].0
        &&& secs.last().last == next - 1
        &&& 1 <= secs.last().first <= secs.last().last
        &&& covers(secs.drop_last(), files, n, secs.last().first)
    } else if n == 0 {
        secs.len() == 0
    } else {
        covers(secs, files, (n - 1) as nat, line_count(files[n - 1]) + 1)
    }
}

proof fn lemma_covers_push(
    secs: Seq<Section>,
    files: Seq<(Seq<char>, Option<Seq<u8>>)>,
    n: nat,
    sec: Section,
)
    requires
        n < files.len(),
        covers(secs, files, n, sec.first),
        sec.name == files[n as int].0,
        1 <= sec.first <= sec.last,
    ensures
        covers(secs.push(sec), files, n, sec.last + 1),
{
    assert(secs.push(sec).drop_last() =~= secs);
}

proof fn lemma_lines_step_covers(
    files: Seq<(Seq<char>, Option<Seq<u8>>)>,
    m: nat,
    p: Packing,
    lines: Seq<Seq<u8>>,
    k: nat,
    max: nat,
)
    requires
        m < files.len(),
        k <= lines.len(),
        covers(all_sections(p), files, m, 1),
    ensures
        ({
            let (q, s) = lines_step(p, files[m as int].0, lines, k, max);
            &&& covers(all_sections(q), files, m, s.start)
            &&& 1 <= s.start <= s.cur
            &&& s.cur == k + 1
            &&& (s.content.len() > 0 <==> s.start < s.cur)
        }),
    decreases k,
{
    let name = files[m as int].0;
    if k > 0 {
        lemma_lines_step_covers(files, m, p, lines, (k - 1) as nat, max);
        let (q, s) = lines_step(p, name, lines, (k - 1) as nat, max);
        let piece = lines[k - 1].push(10u8);
        if chunk_bytes(q.chunk).len() + open_tag(name, s.start, s.cur).len() + s.content.len()
            + piece.len() + close_tag().len() > max {
            let closed = if s.content.len() > 0 {
                q.chunk.push(pending_section(s, name))
            } else {
                q.chunk
            };
            let c = Packing { chunk: closed, done: q.done };
            if s.content.len() > 0 {
                let sec = pending_section(s, name);
                assert(all_sections(c) =~= all_sections(q).push(sec));
                lemma_covers_push(all_sections(q), files, m, sec);
            }
            lemma_flush_keeps_sections(c);
        }
    }
}

proof fn lemma_files_step_covers(files: Seq<(Seq<char>, Option<Seq<u8>>)>, n: nat, max: nat)
    requires
        n <= files.len(),
    ensures
        covers(all_sections(files_step(files, n, max)), files, n, 1),
    decreases n,
{
    if n == 0 {
        assert(all_sections(files_step(files, 0, max)) =~= Seq::<Section>::empty());
    } else {
        let m = (n - 1) as nat;
        lemma_files_step_covers(files, m, max);
        let p = files_step(files, m, max);
        match files[m as int].1 {
            Some(c) => {
                let lines = byte_lines(c);
                let name = files[m as int].0;
                lemma_lines_step_covers(files, m, p, lines, lines.len(), max);
                let (q, s) = lines_step(p, name, lines, lines.len(), max);
                assert(line_count(files[m as int]) == lines.len());
                if s.content.len() > 0 {
                    let sec = pending_section(s, name);
                    lemma_flush_keeps_sections(q);
                    let r = if chunk_bytes(q.chunk).len() + render(sec).len() > max && chunk_bytes(
                        q.chunk,
                    ).len() > header().len() {
                        flush(q)
                    } else {
                        q
                    };
                    assert(all_sections(Packing { chunk: r.chunk.push(sec), done: r.done })
                        =~= all_sections(r).push(sec));
                    lemma_covers_push(all_sections(r), files, m, sec);
                }
            },
            None => {},
        }
    }
}

/// The sections of all chunks, one after the other, split each file that
/// was read into ranges of line numbers that start at 1, follow one
/// another without gap or overlap and end at its last line; the files come
/// in the order given, and a file that was not read or has no line has no
/// section.
pub proof fn lemma_sections_cover_each_file(files: Seq<(Seq<char>, Option<Seq<u8>>)>, max: nat)
    ensures
        covers(flatten(packed_sections(files, max)), files, files.len(), 1),
{
    lemma_files_step_covers(files, files.len(), max);
    lemma_flatten_packed(files, max);
}

} // verus!
