//! The recursive splitter: splits a text along a hierarchy of delimiters,
//! from the coarsest to the finest, and stitches neighbouring pieces
//! together.
use crate::chars::lemma_encode_concat;
use crate::chunk::{span_seq, Chunk, Chunker, ChunkerError, DEFAULT_OVERLAP, DEFAULT_SIZE};
use crate::text::{
    byte_len, ceil_boundary, ceil_char_boundary, floor_boundary, floor_char_boundary, is_blank,
    is_blank_str, lemma_ceil_boundary, lemma_ceil_least, lemma_floor_boundary,
    lemma_floor_greatest, lemma_occurrence_boundaries, lemma_str_bytes, occurs_at, slice,
    starts_at,
};
use std::borrow::Cow;
use vstd::prelude::*;
use vstd::string::{StringExecFns, StringSliceAdditionalSpecFns};
use vstd::utf8::{is_char_boundary, valid_utf8};

verus! {

/// The bytes of each delimiter of a list.
pub open spec fn delimiter_bytes(delims: Seq<&str>) -> Seq<Seq<u8>> {
    Seq::new(delims.len(), |i: int| delims[i].spec_bytes())
}

/// The delimiters of plain text, from paragraphs down to single characters.
pub open spec fn default_delimiters() -> Seq<Seq<char>> {
    seq!["\n\n"@, "\n"@, " "@, ""@]
}

/// The delimiters of markdown: headings, fences and rules before those of
/// plain text.
pub open spec fn markdown_delimiters() -> Seq<Seq<char>> {
    seq![
        "#"@,
        "##"@,
        "###"@,
        "####"@,
        "#####"@,
        "######"@,
        "\n```"@,
        "\n---\n"@,
        "\n___\n"@,
        "\n\n"@,
        "\n"@,
        " "@,
        ""@,
    ]
}

/// The characters of each delimiter of a list.
pub open spec fn delimiter_chars(delims: Seq<&str>) -> Seq<Seq<char>> {
    Seq::new(delims.len(), |i: int| delims[i]@)
}

/// The delimiters that a splitter uses unless it is told otherwise.
pub fn default_delims() -> (r: &'static [&'static str])
    ensures
        delimiter_chars(r@) == default_delimiters(),
{
    let r: &'static [&'static str] = &["\n\n", "\n", " ", ""];
    assert(delimiter_chars(r@) =~= default_delimiters());
    r
}

/// The delimiters that a splitter of markdown uses.
pub fn markdown_delims() -> (r: &'static [&'static str])
    ensures
        delimiter_chars(r@) == markdown_delimiters(),
{
    let r: &'static [&'static str] = &[
        "#",
        "##",
        "###",
        "####",
        "#####",
        "######",
        "\n```",
        "\n---\n",
        "\n___\n",
        "\n\n",
        "\n",
        " ",
        "",
    ];
    assert(delimiter_chars(r@) =~= markdown_delimiters());
    r
}

/// The end of the first occurrence of `delim` that lies within the bytes
/// `i..hi` of `t`, or `hi` if there is none.
pub open spec fn match_end(t: Seq<u8>, delim: Seq<u8>, i: int, hi: int) -> int
    decreases hi - i,
{
    if delim.len() == 0 || i + delim.len() > hi {
        hi
    } else if occurs_at(t, delim, i) {
        i + delim.len()
    } else {
        match_end(t, delim, i + 1, hi)
    }
}

/// The end of the piece that starts at `pos` when the bytes up to `hi` are
/// split behind each occurrence of `delim`, so that the delimiter stays
/// with the piece before it. The empty delimiter splits behind each
/// character.
pub open spec fn piece_end(t: Seq<u8>, delim: Seq<u8>, pos: int, hi: int) -> int {
    if delim.len() > 0 {
        match_end(t, delim, pos, hi)
    } else if pos < ceil_boundary(t, pos + 1) <= hi {
        ceil_boundary(t, pos + 1)
    } else {
        hi
    }
}

/// A piece that starts before `hi` is not empty and ends at `hi` or before.
pub proof fn lemma_piece_end(t: Seq<u8>, delim: Seq<u8>, pos: int, hi: int)
    requires
        pos < hi,
    ensures
        pos < piece_end(t, delim, pos, hi) <= hi,
{
    if delim.len() > 0 {
        lemma_match_end(t, delim, pos, hi);
    }
}

/// A search that starts before `hi` ends behind its start, at `hi` or
/// before.
pub proof fn lemma_match_end(t: Seq<u8>, delim: Seq<u8>, i: int, hi: int)
    requires
        i <= hi,
        delim.len() > 0,
    ensures
        i <= match_end(t, delim, i, hi) <= hi,
        i < hi ==> i < match_end(t, delim, i, hi),
    decreases hi - i,
{
    if i + delim.len() > hi {
    } else if occurs_at(t, delim, i) {
    } else {
        lemma_match_end(t, delim, i + 1, hi);
    }
}

/// The buffer, if it holds anything.
pub open spec fn pending(buffer: (int, int)) -> Option<(int, int)> {
    if buffer.1 > buffer.0 {
        Some(buffer)
    } else {
        None
    }
}

/// What splitting the bytes `pos..hi` of `t` at delimiter `idx` adds to the
/// splits in `done`, and the buffer that it leaves behind.
///
/// The range is split behind each occurrence of the delimiter. A piece is
/// added to the buffer as long as it starts where the buffer ends and both
/// together hold at most `size` bytes. A piece that cannot be added closes
/// the buffer, which becomes a split. If the piece alone holds at most
/// `size` bytes it is the new buffer; else it is split at the next
/// delimiter, starting from an empty buffer, and what that leaves behind is
/// the new buffer. With no delimiter left nothing is added and nothing is
/// left behind: a piece that no delimiter makes small enough is dropped.
pub open spec fn gather(
    t: Seq<u8>,
    size: int,
    delims: Seq<Seq<u8>>,
    idx: int,
    pos: int,
    hi: int,
    buffer: (int, int),
    done: Seq<(int, int)>,
) -> (Seq<(int, int)>, Option<(int, int)>)
    decreases delims.len() - idx, hi - pos,
{
    if idx < 0 || idx >= delims.len() {
        (done, None)
    } else if pos >= hi {
        (done, pending(buffer))
    } else {
        proof {
            lemma_piece_end(t, delims[idx], pos, hi);
        }
        let end = piece_end(t, delims[idx], pos, hi);
        let held = if buffer.1 > buffer.0 {
            buffer.1 - buffer.0
        } else {
            0
        };
        if held + (end - pos) <= size && (held == 0 || buffer.1 == pos) {
            let grown = if held == 0 {
                (pos, end)
            } else {
                (buffer.0, end)
            };
            gather(t, size, delims, idx, end, hi, grown, done)
        } else {
            let closed = if held > 0 {
                done.push(buffer)
            } else {
                done
            };
            if held > 0 && end - pos <= size {
                gather(t, size, delims, idx, end, hi, (pos, end), closed)
            } else {
                let inner = gather(t, size, delims, idx + 1, pos, end, (pos, pos), closed);
                let left = match inner.1 {
                    Some(b) => b,
                    None => (end, end),
                };
                gather(t, size, delims, idx, end, hi, left, inner.0)
            }
        }
    }
}

/// The splits of a whole text: what splitting it at the first delimiter
/// gives, and at last the buffer that is left behind.
pub open spec fn raw_splits(t: Seq<u8>, size: int, delims: Seq<Seq<u8>>) -> Seq<(int, int)> {
    let r = gather(t, size, delims, 0, 0, t.len() as int, (0, 0), Seq::empty());
    match r.1 {
        Some(b) => r.0.push(b),
        None => r.0,
    }
}

/// The range is not empty, lies in `t` between two code-point boundaries
/// and holds at most `size` bytes.
pub open spec fn good_span(t: Seq<u8>, size: int, s: (int, int)) -> bool {
    &&& 0 <= s.0 < s.1 <= t.len()
    &&& is_char_boundary(t, s.0)
    &&& is_char_boundary(t, s.1)
    &&& s.1 - s.0 <= size
}

/// The ranges are good, none starts before the one before it ends, and all
/// end at `upto` or before.
pub open spec fn good_splits(t: Seq<u8>, size: int, spans: Seq<(int, int)>, upto: int) -> bool {
    &&& forall|i: int|
        0 <= i < spans.len() ==> good_span(t, size, #[trigger] spans[i]) && spans[i].1 <= upto
    &&& forall|i: int, j: int|
        0 <= i < j < spans.len() ==> (#[trigger] spans[i]).1 <= (#[trigger] spans[j]).0
}

/// A piece that starts before a boundary `hi` ends on a boundary.
pub proof fn lemma_piece_end_boundary(t: Seq<u8>, delim: Seq<u8>, pos: int, hi: int)
    requires
        valid_utf8(t),
        valid_utf8(delim),
        0 <= pos < hi <= t.len(),
        is_char_boundary(t, hi),
    ensures
        is_char_boundary(t, piece_end(t, delim, pos, hi)),
{
    if delim.len() > 0 {
        lemma_match_end_boundary(t, delim, pos, hi);
    } else {
        lemma_ceil_boundary(t, pos + 1);
    }
}

/// A search up to a boundary `hi` ends on a boundary.
pub proof fn lemma_match_end_boundary(t: Seq<u8>, delim: Seq<u8>, i: int, hi: int)
    requires
        valid_utf8(t),
        valid_utf8(delim),
        is_char_boundary(t, hi),
    ensures
        is_char_boundary(t, match_end(t, delim, i, hi)),
    decreases hi - i,
{
    if delim.len() == 0 || i + delim.len() > hi {
    } else if occurs_at(t, delim, i) {
        lemma_occurrence_boundaries(t, delim, i);
    } else {
        lemma_match_end_boundary(t, delim, i + 1, hi);
    }
}

/// Splitting keeps the splits good: each split that `gather` closes is a
/// range of at most `size` bytes between two code-point boundaries, the
/// splits follow each other without overlap, and so does the buffer that
/// is left behind.
pub proof fn lemma_gather(
    t: Seq<u8>,
    size: int,
    delims: Seq<Seq<u8>>,
    idx: int,
    pos: int,
    hi: int,
    buffer: (int, int),
    done: Seq<(int, int)>,
)
    requires
        valid_utf8(t),
        forall|k: int| 0 <= k < delims.len() ==> valid_utf8(#[trigger] delims[k]),
        0 <= pos <= hi <= t.len(),
        is_char_boundary(t, pos),
        is_char_boundary(t, hi),
        buffer.1 > buffer.0 ==> good_span(t, size, buffer) && buffer.1 <= pos,
        good_splits(
            t,
            size,
            done,
            if buffer.1 > buffer.0 {
                buffer.0
            } else {
                pos
            },
        ),
    ensures
        ({
            let r = gather(t, size, delims, idx, pos, hi, buffer, done);
            &&& good_splits(
                t,
                size,
                r.0,
                match r.1 {
                    Some(b) => b.0,
                    None => hi,
                },
            )
            &&& r.1 matches Some(b) ==> good_span(t, size, b) && b.1 <= hi
        }),
    decreases delims.len() - idx, hi - pos,
{
    if idx < 0 || idx >= delims.len() {
    } else if pos >= hi {
    } else {
        lemma_piece_end(t, delims[idx], pos, hi);
        lemma_piece_end_boundary(t, delims[idx], pos, hi);
        let end = piece_end(t, delims[idx], pos, hi);
        let held = if buffer.1 > buffer.0 {
            buffer.1 - buffer.0
        } else {
            0
        };
        if held + (end - pos) <= size && (held == 0 || buffer.1 == pos) {
            let grown = if held == 0 {
                (pos, end)
            } else {
                (buffer.0, end)
            };
            lemma_gather(t, size, delims, idx, end, hi, grown, done);
        } else {
            let closed = if held > 0 {
                done.push(buffer)
            } else {
                done
            };
            assert(good_splits(t, size, closed, pos));
            if held > 0 && end - pos <= size {
                lemma_gather(t, size, delims, idx, end, hi, (pos, end), closed);
            } else {
                lemma_gather(t, size, delims, idx + 1, pos, end, (pos, pos), closed);
                let inner = gather(t, size, delims, idx + 1, pos, end, (pos, pos), closed);
                let left = match inner.1 {
                    Some(b) => b,
                    None => (end, end),
                };
                lemma_gather(t, size, delims, idx, end, hi, left, inner.0);
            }
        }
    }
}

/// The splits of a text are good: ranges of at most `size` bytes between
/// code-point boundaries that follow each other without overlap.
pub proof fn lemma_raw_splits(t: Seq<u8>, size: int, delims: Seq<Seq<u8>>)
    requires
        valid_utf8(t),
        forall|k: int| 0 <= k < delims.len() ==> valid_utf8(#[trigger] delims[k]),
    ensures
        good_splits(t, size, raw_splits(t, size, delims), t.len() as int),
{
    vstd::utf8::is_char_boundary_start_end_of_seq(t);
    lemma_gather(t, size, delims, 0, 0, t.len() as int, (0, 0), Seq::empty());
}

/// What a chunk borrows from the split before it: the whole split if it
/// holds at most `overlap` bytes, else its last `overlap` bytes. A start
/// that falls inside a character moves up to the end of that character, so
/// that never more than `overlap` bytes are borrowed.
pub open spec fn tail_of(t: Seq<u8>, s: (int, int), overlap: int) -> (int, int) {
    if s.1 - s.0 <= overlap {
        s
    } else {
        (ceil_boundary(t, s.1 - overlap), s.1)
    }
}

/// What a chunk borrows from the split behind it: the whole split if it
/// holds at most `overlap` bytes, else its first `overlap` bytes. An end
/// that falls inside a character moves down to the start of that character,
/// so that never more than `overlap` bytes are borrowed.
pub open spec fn head_of(t: Seq<u8>, s: (int, int), overlap: int) -> (int, int) {
    if s.1 - s.0 <= overlap {
        s
    } else {
        (s.0, floor_boundary(t, s.0 + overlap))
    }
}

/// The three ranges that a chunk is stitched from: the tail of the split
/// before it, its own split and the head of the split behind it. A part
/// that is missing is an empty range.
pub struct Stitch {
    pub before: (int, int),
    pub core: (int, int),
    pub after: (int, int),
}

impl Stitch {
    /// Where the first byte of the chunk stands in the text.
    pub open spec fn start(self) -> int {
        if self.before.1 > self.before.0 {
            self.before.0
        } else {
            self.core.0
        }
    }

    /// Where the chunk ends in the text.
    pub open spec fn end(self) -> int {
        if self.after.1 > self.after.0 {
            self.after.1
        } else {
            self.core.1
        }
    }

    /// The bytes of the chunk: those of its three parts in a row.
    pub open spec fn bytes(self, t: Seq<u8>) -> Seq<u8> {
        t.subrange(self.before.0, self.before.1) + t.subrange(self.core.0, self.core.1)
            + t.subrange(self.after.0, self.after.1)
    }

    /// The parts touch, so that the chunk is one range of the text.
    pub open spec fn contiguous(self) -> bool {
        &&& self.before.1 > self.before.0 ==> self.before.1 == self.core.0
        &&& self.after.1 > self.after.0 ==> self.after.0 == self.core.1
    }

    /// The parts are ranges of `t` between code-point boundaries, in order.
    pub open spec fn well_formed(self, t: Seq<u8>) -> bool {
        &&& 0 <= self.before.0 <= self.before.1 <= self.core.0 <= self.core.1 <= self.after.0
            <= self.after.1 <= t.len()
        &&& is_char_boundary(t, self.before.0)
        &&& is_char_boundary(t, self.before.1)
        &&& is_char_boundary(t, self.core.0)
        &&& is_char_boundary(t, self.core.1)
        &&& is_char_boundary(t, self.after.0)
        &&& is_char_boundary(t, self.after.1)
    }
}

/// The parts of the chunk that is stitched around split `i`. The first
/// split has no split before it and the last none behind it.
pub open spec fn stitch_at(t: Seq<u8>, splits: Seq<(int, int)>, overlap: int, i: int) -> Stitch {
    Stitch {
        before: if i > 0 {
            tail_of(t, splits[i - 1], overlap)
        } else {
            (splits[i].0, splits[i].0)
        },
        core: splits[i],
        after: if i + 1 < splits.len() {
            head_of(t, splits[i + 1], overlap)
        } else {
            (splits[i].1, splits[i].1)
        },
    }
}

/// The chunks that are stitched around the splits from `i` on, without
/// those that are empty or hold white space only.
pub open spec fn kept_from(t: Seq<u8>, splits: Seq<(int, int)>, overlap: int, i: int) -> Seq<
    Stitch,
>
    decreases splits.len() - i,
{
    if i < 0 || i >= splits.len() {
        Seq::empty()
    } else if is_blank(stitch_at(t, splits, overlap, i).bytes(t)) {
        kept_from(t, splits, overlap, i + 1)
    } else {
        seq![stitch_at(t, splits, overlap, i)] + kept_from(t, splits, overlap, i + 1)
    }
}

/// The chunks of a text: one around each of its splits, without those that
/// are empty or hold white space only.
pub open spec fn stitched(t: Seq<u8>, size: int, overlap: int, delims: Seq<Seq<u8>>) -> Seq<
    Stitch,
> {
    kept_from(t, raw_splits(t, size, delims), overlap, 0)
}

/// The chunk tells of the text what the stitch says: the same bytes, the
/// same range, and a borrowed slice where the parts touch.
pub open spec fn chunk_is(chunk: Chunk<'_>, stitch: Stitch, t: Seq<u8>) -> bool {
    &&& chunk.bytes() == stitch.bytes(t)
    &&& chunk.start == stitch.start()
    &&& chunk.end == stitch.end()
    &&& chunk.within(t)
    &&& stitch.contiguous() ==> chunk.content is Borrowed && chunk.views(t)
}

/// Around good splits every stitch is well formed, and it borrows at most
/// `overlap` bytes on each side.
pub proof fn lemma_stitch_at(
    t: Seq<u8>,
    size: int,
    splits: Seq<(int, int)>,
    overlap: int,
    i: int,
)
    requires
        valid_utf8(t),
        0 <= overlap,
        good_splits(t, size, splits, t.len() as int),
        0 <= i < splits.len(),
    ensures
        stitch_at(t, splits, overlap, i).well_formed(t),
        stitch_at(t, splits, overlap, i).bytes(t).len() <= size + 2 * overlap,
{
    let s = stitch_at(t, splits, overlap, i);
    assert(good_span(t, size, splits[i]));
    if i > 0 {
        let p = splits[i - 1];
        assert(good_span(t, size, p));
        assert(p.1 <= splits[i].0);
        lemma_ceil_boundary(t, p.1 - overlap);
        lemma_ceil_least(t, p.1 - overlap, p.1);
    }
    if i + 1 < splits.len() {
        let q = splits[i + 1];
        assert(good_span(t, size, q));
        assert(splits[i].1 <= q.0);
        lemma_floor_boundary(t, q.0 + overlap);
        lemma_floor_greatest(t, q.0 + overlap, q.0);
    }
}

/// The chunks follow the order of their splits: a chunk around a later
/// split neither begins nor ends before a chunk around an earlier one.
pub proof fn lemma_stitch_order(
    t: Seq<u8>,
    size: int,
    splits: Seq<(int, int)>,
    overlap: int,
    i: int,
    j: int,
)
    requires
        valid_utf8(t),
        0 <= overlap,
        good_splits(t, size, splits, t.len() as int),
        0 <= i < j < splits.len(),
    ensures
        stitch_at(t, splits, overlap, i).start() <= stitch_at(t, splits, overlap, j).start(),
        stitch_at(t, splits, overlap, i).end() <= stitch_at(t, splits, overlap, j).end(),
{
    lemma_stitch_at(t, size, splits, overlap, i);
    lemma_stitch_at(t, size, splits, overlap, j);
    let p = splits[j - 1];
    let q = splits[i + 1];
    assert(good_span(t, size, p));
    assert(good_span(t, size, q));
    assert(good_span(t, size, splits[i]));
    assert(good_span(t, size, splits[j]));
    lemma_ceil_boundary(t, p.1 - overlap);
    lemma_floor_boundary(t, q.0 + overlap);
    if i < j - 1 {
        assert(splits[i].1 <= splits[j - 1].0);
        assert(splits[i + 1].1 <= splits[j].0);
    }
}

/// No delimiter from `idx` on stands anywhere in `t`; the empty delimiter,
/// which stands between any two characters, is none of them.
pub open spec fn none_occurs(t: Seq<u8>, delims: Seq<Seq<u8>>, idx: int) -> bool {
    &&& forall|k: int| idx <= k < delims.len() ==> (#[trigger] delims[k]).len() > 0
    &&& forall|k: int, i: int|
        #![trigger occurs_at(t, delims[k], i)]
        idx <= k < delims.len() ==> !occurs_at(t, delims[k], i)
}

/// A delimiter that stands nowhere leaves the range in one piece.
pub proof fn lemma_match_end_none(t: Seq<u8>, delim: Seq<u8>, i: int, hi: int)
    requires
        forall|j: int| #![trigger occurs_at(t, delim, j)] !occurs_at(t, delim, j),
    ensures
        match_end(t, delim, i, hi) == hi,
    decreases hi - i,
{
    if delim.len() == 0 || i + delim.len() > hi {
    } else {
        assert(!occurs_at(t, delim, i));
        lemma_match_end_none(t, delim, i + 1, hi);
    }
}

/// A range of more than `size` bytes in which no delimiter stands is
/// dropped: it adds no split and leaves nothing behind.
pub proof fn lemma_gather_unmatched(
    t: Seq<u8>,
    size: int,
    delims: Seq<Seq<u8>>,
    idx: int,
    pos: int,
    hi: int,
    done: Seq<(int, int)>,
)
    requires
        0 <= idx,
        0 <= size < hi - pos,
        none_occurs(t, delims, idx),
    ensures
        gather(t, size, delims, idx, pos, hi, (pos, pos), done) == (done, None::<(int, int)>),
    decreases delims.len() - idx,
{
    if idx < delims.len() {
        assert(delims[idx].len() > 0);
        lemma_match_end_none(t, delims[idx], pos, hi);
        lemma_gather_unmatched(t, size, delims, idx + 1, pos, hi, done);
        assert(gather(t, size, delims, idx, hi, hi, (hi, hi), done) == (done, None::<(int, int)>));
    }
}

/// A text of more than `size` bytes in which none of the delimiters stands
/// gives no chunk at all.
pub proof fn lemma_unmatched_is_empty(t: Seq<u8>, size: int, overlap: int, delims: Seq<Seq<u8>>)
    requires
        0 <= size < t.len(),
        none_occurs(t, delims, 0),
    ensures
        raw_splits(t, size, delims).len() == 0,
        stitched(t, size, overlap, delims).len() == 0,
{
    lemma_gather_unmatched(t, size, delims, 0, 0, t.len() as int, Seq::empty());
}

/// A range, if there is one, as a pair of integers.
pub open spec fn span_opt(span: Option<(usize, usize)>) -> Option<(int, int)> {
    match span {
        Some(s) => Some((s.0 as int, s.1 as int)),
        None => None,
    }
}

/// The end of the piece of `input` that starts at byte `pos`, when the bytes
/// up to `hi` are split behind each occurrence of `delim`.
pub fn next_piece_end(input: &str, delim: &str, pos: usize, hi: usize) -> (end: usize)
    requires
        pos < hi <= input.spec_bytes().len(),
    ensures
        end == piece_end(input.spec_bytes(), delim.spec_bytes(), pos as int, hi as int),
        pos < end <= hi,
{
    proof {
        lemma_piece_end(input.spec_bytes(), delim.spec_bytes(), pos as int, hi as int);
    }
    let m = byte_len(delim);
    if m == 0 {
        let next = ceil_char_boundary(input, pos + 1);
        if pos < next && next <= hi {
            return next;
        }
        return hi;
    }
    let mut i: usize = pos;
    let mut end: usize = hi;
    let mut found = false;
    while !found && m <= hi - i
        invariant
            pos <= i <= hi <= input.spec_bytes().len(),
            m == delim.spec_bytes().len(),
            m > 0,
            !found ==> end == hi,
            !found ==> match_end(input.spec_bytes(), delim.spec_bytes(), i as int, hi as int)
                == match_end(input.spec_bytes(), delim.spec_bytes(), pos as int, hi as int),
            found ==> end == match_end(
                input.spec_bytes(),
                delim.spec_bytes(),
                pos as int,
                hi as int,
            ),
        decreases
                (if found {
                    0
                } else {
                    hi - i + 1
                }),
    {
        if starts_at(input, delim, i) {
            end = i + m;
            found = true;
        } else {
            i = i + 1;
        }
    }
    end
}

/// The chunk that holds the bytes of `before`, `core` and `after` in a row.
/// Parts that touch are handed out as one slice of the input; parts that
/// do not are copied into a text of their own.
pub fn stitch<'a>(
    input: &'a str,
    before: (usize, usize),
    core: (usize, usize),
    after: (usize, usize),
) -> (chunk: Chunk<'a>)
    requires
        (Stitch {
            before: (before.0 as int, before.1 as int),
            core: (core.0 as int, core.1 as int),
            after: (after.0 as int, after.1 as int),
        }).well_formed(input.spec_bytes()),
    ensures
        chunk_is(
            chunk,
            Stitch {
                before: (before.0 as int, before.1 as int),
                core: (core.0 as int, core.1 as int),
                after: (after.0 as int, after.1 as int),
            },
            input.spec_bytes(),
        ),
{
    let ghost t = input.spec_bytes();
    let start = if before.1 > before.0 {
        before.0
    } else {
        core.0
    };
    let end = if after.1 > after.0 {
        after.1
    } else {
        core.1
    };
    let touches = (before.1 == before.0 || before.1 == core.0) && (after.1 == after.0 || after.0
        == core.1);
    if touches {
        let chunk = Chunk::cut(input, start, end);
        assert(t.subrange(start as int, end as int) =~= t.subrange(
            before.0 as int,
            before.1 as int,
        ) + t.subrange(core.0 as int, core.1 as int) + t.subrange(after.0 as int, after.1 as int));
        chunk
    } else {
        let a = slice(input, before.0, before.1);
        let b = slice(input, core.0, core.1);
        let c = slice(input, after.0, after.1);
        let mut text = String::new();
        text.append(a);
        text.append(b);
        text.append(c);
        proof {
            assert(text@ =~= (a@ + b@) + c@);
            lemma_encode_concat(a@ + b@, c@);
            lemma_encode_concat(a@, b@);
        }
        Chunk { content: Cow::Owned(text), start, end }
    }
}

/// A chunker that splits its input along a list of delimiters.
///
/// The input is first split at the first delimiter. Each piece that is
/// longer than `size` bytes is split again at the next delimiter, and so on
/// down the list; a piece that is still too long once the list is used up
/// is left out. Pieces are gathered into splits of at most `size` bytes,
/// and each split borrows up to `overlap` bytes from its two neighbours.
#[derive(Debug)]
pub struct Recursive<'a> {
    /// The most bytes that a split may hold.
    pub size: usize,
    /// The most bytes that a chunk borrows from each neighbour.
    pub overlap: usize,
    /// The delimiters, the coarsest first.
    pub delims: &'a [&'a str],
}

impl<'delim> Recursive<'delim> {
    /// A splitter with the given size, overlap and delimiters.
    pub fn new(size: usize, overlap: usize, delimiters: &'delim [&'delim str]) -> (r: Self)
        ensures
            r == (Recursive { size, overlap, delims: delimiters }),
    {
        Recursive { size, overlap, delims: delimiters }
    }

    /// The same splitter with another size.
    pub fn chunk_size(self, size: usize) -> (r: Self)
        ensures
            r == (Recursive { size, ..self }),
    {
        let mut r = self;
        r.size = size;
        r
    }

    /// The same splitter with another overlap.
    pub fn overlap(self, overlap: usize) -> (r: Self)
        ensures
            r == (Recursive { overlap, ..self }),
    {
        let mut r = self;
        r.overlap = overlap;
        r
    }

    /// The same splitter with other delimiters.
    pub fn delimiters(self, delimiters: &'delim [&'delim str]) -> (r: Self)
        ensures
            r == (Recursive { delims: delimiters, ..self }),
    {
        let mut r = self;
        r.delims = delimiters;
        r
    }

    /// A splitter for markdown, with the default size and overlap.
    pub fn markdown() -> (r: Self)
        ensures
            r.size == DEFAULT_SIZE,
            r.overlap == DEFAULT_OVERLAP,
            delimiter_chars(r.delims@) == markdown_delimiters(),
    {
        Recursive { size: DEFAULT_SIZE, overlap: DEFAULT_OVERLAP, delims: markdown_delims() }
    }
    /// Splits the bytes `piece` of `input` at delimiter `idx` and the ones
    /// after it. Each split that is closed is pushed to `splits`; what is
    /// left in the buffer at the end is handed back, so that the caller can
    /// go on with it.
    ///
    /// `buffer` is what the caller has gathered so far: a range that ends
    /// where `piece` starts, or an empty range.
    pub fn chunk_recursive(
        &self,
        input: &str,
        piece: (usize, usize),
        idx: usize,
        buffer: (usize, usize),
        splits: &mut Vec<(usize, usize)>,
    ) -> (left: Option<(usize, usize)>)
        requires
            piece.0 <= piece.1 <= input.spec_bytes().len(),
        ensures
            (span_seq(final(splits)@), span_opt(left)) == gather(
                input.spec_bytes(),
                self.size as int,
                delimiter_bytes(self.delims@),
                idx as int,
                piece.0 as int,
                piece.1 as int,
                (buffer.0 as int, buffer.1 as int),
                span_seq(old(splits)@),
            ),
        decreases self.delims@.len() - idx,
    {
        if idx >= self.delims.len() {
            return None;
        }
        let ghost t = input.spec_bytes();
        let ghost delims = delimiter_bytes(self.delims@);
        let ghost goal = gather(
            t,
            self.size as int,
            delims,
            idx as int,
            piece.0 as int,
            piece.1 as int,
            (buffer.0 as int, buffer.1 as int),
            span_seq(splits@),
        );
        let delim = self.delims[idx];
        let count = self.delims.len();
        let hi = piece.1;
        let mut pos = piece.0;
        let mut buffer = buffer;
        while pos < hi
            invariant
                t == input.spec_bytes(),
                delims == delimiter_bytes(self.delims@),
                idx < count == self.delims@.len(),
                delim == self.delims@[idx as int],
                pos <= hi <= t.len(),
                gather(
                    t,
                    self.size as int,
                    delims,
                    idx as int,
                    pos as int,
                    hi as int,
                    (buffer.0 as int, buffer.1 as int),
                    span_seq(splits@),
                ) == goal,
            decreases hi - pos,
        {
            let ghost done = span_seq(splits@);
            assert(delims[idx as int] == delim.spec_bytes());
            let end = next_piece_end(input, delim, pos, hi);
            let held = if buffer.1 > buffer.0 {
                buffer.1 - buffer.0
            } else {
                0
            };
            let len = end - pos;
            if len <= self.size && held <= self.size - len && (held == 0 || buffer.1 == pos) {
                buffer = if held == 0 {
                    (pos, end)
                } else {
                    (buffer.0, end)
                };
            } else {
                if held > 0 {
                    splits.push(buffer);
                    assert(span_seq(splits@) =~= done.push((buffer.0 as int, buffer.1 as int)));
                }
                if held > 0 && len <= self.size {
                    buffer = (pos, end);
                } else {
                    let empty = (pos, pos);
                    let inner = self.chunk_recursive(input, (pos, end), idx + 1, empty, splits);
                    buffer = match inner {
                        Some(b) => b,
                        None => (end, end),
                    };
                }
            }
            pos = end;
        }
        if buffer.1 > buffer.0 {
            Some(buffer)
        } else {
            None
        }
    }
    /// The part of split `s` that the chunk behind it borrows.
    pub fn tail(&self, input: &str, s: (usize, usize)) -> (r: (usize, usize))
        requires
            s.0 <= s.1 <= input.spec_bytes().len(),
        ensures
            (r.0 as int, r.1 as int) == tail_of(
                input.spec_bytes(),
                (s.0 as int, s.1 as int),
                self.overlap as int,
            ),
    {
        if s.1 - s.0 <= self.overlap {
            s
        } else {
            (ceil_char_boundary(input, s.1 - self.overlap), s.1)
        }
    }

    /// The part of split `s` that the chunk before it borrows.
    pub fn head(&self, input: &str, s: (usize, usize)) -> (r: (usize, usize))
        requires
            s.0 <= s.1 <= input.spec_bytes().len(),
        ensures
            (r.0 as int, r.1 as int) == head_of(
                input.spec_bytes(),
                (s.0 as int, s.1 as int),
                self.overlap as int,
            ),
    {
        if s.1 - s.0 <= self.overlap {
            s
        } else {
            (s.0, floor_char_boundary(input, s.0 + self.overlap))
        }
    }
}

impl<'delim> Chunker for Recursive<'delim> {
    /// Splits the input and stitches a chunk around each split. Chunk `j`
    /// is stitch `j` of `stitched`; none holds more than
    /// `size + 2 * overlap` bytes.
    fn chunk<'a>(&self, input: &'a str) -> (r: Result<Vec<Chunk<'a>>, ChunkerError>)
        ensures
            r matches Ok(chunks) && {
                let t = input.spec_bytes();
                let kept = stitched(
                    t,
                    self.size as int,
                    self.overlap as int,
                    delimiter_bytes(self.delims@),
                );
                &&& chunks@.len() == kept.len()
                &&& forall|j: int|
                    0 <= j < chunks@.len() ==> chunk_is(#[trigger] chunks@[j], kept[j], t)
                &&& forall|j: int|
                    0 <= j < chunks@.len() ==> (#[trigger] chunks@[j]).bytes().len() <= self.size
                        + 2 * self.overlap
                &&& forall|j: int|
                    0 <= j < chunks@.len() ==> !is_blank((#[trigger] chunks@[j]).bytes())
                &&& forall|j: int|
                    0 < j < chunks@.len() ==> chunks@[j - 1].start <= (#[trigger] chunks@[j]).start
                        && chunks@[j - 1].end <= chunks@[j].end
            },
    {
        let ghost t = input.spec_bytes();
        let ghost delims = delimiter_bytes(self.delims@);
        let ghost raw = raw_splits(t, self.size as int, delims);
        let ghost goal = kept_from(t, raw, self.overlap as int, 0);
        let n = byte_len(input);
        let mut splits: Vec<(usize, usize)> = Vec::new();
        assert(span_seq(splits@) =~= Seq::<(int, int)>::empty());
        let left = self.chunk_recursive(input, (0, n), 0, (0, 0), &mut splits);
        if let Some(s) = left {
            let ghost closed = span_seq(splits@);
            splits.push(s);
            assert(span_seq(splits@) =~= closed.push((s.0 as int, s.1 as int)));
        }
        proof {
            lemma_str_bytes(input);
            assert forall|k: int| 0 <= k < delims.len() implies valid_utf8(
                #[trigger] delims[k],
            ) by {
                lemma_str_bytes(self.delims@[k]);
            }
            lemma_raw_splits(t, self.size as int, delims);
        }
        let count = splits.len();
        let mut chunks: Vec<Chunk<'a>> = Vec::new();
        let ghost mut kept: Seq<Stitch> = Seq::empty();
        let ghost mut last: int = 0;
        assert(kept + goal =~= goal);
        for i in 0..count
            invariant
                t == input.spec_bytes(),
                valid_utf8(t),
                count == splits@.len(),
                span_seq(splits@) == raw,
                good_splits(t, self.size as int, raw, t.len() as int),
                goal == kept_from(t, raw, self.overlap as int, 0),
                kept + kept_from(t, raw, self.overlap as int, i as int) == goal,
                chunks@.len() == kept.len(),
                forall|j: int|
                    0 <= j < chunks@.len() ==> chunk_is(#[trigger] chunks@[j], kept[j], t),
                forall|j: int|
                    0 <= j < chunks@.len() ==> (#[trigger] chunks@[j]).bytes().len() <= self.size
                        + 2 * self.overlap,
                forall|j: int|
                    0 <= j < chunks@.len() ==> !is_blank((#[trigger] chunks@[j]).bytes()),
                kept.len() > 0 ==> 0 <= last < i && kept[kept.len() - 1] == stitch_at(
                    t,
                    raw,
                    self.overlap as int,
                    last,
                ),
                forall|j: int|
                    0 < j < chunks@.len() ==> chunks@[j - 1].start <= (#[trigger] chunks@[j]).start
                        && chunks@[j - 1].end <= chunks@[j].end,
        {
            proof {
                lemma_stitch_at(t, self.size as int, raw, self.overlap as int, i as int);
                assert(raw[i as int] == (splits@[i as int].0 as int, splits@[i as int].1 as int));
                if i > 0 {
                    assert(raw[i - 1] == (splits@[i - 1].0 as int, splits@[i - 1].1 as int));
                    assert(good_span(t, self.size as int, raw[i - 1]));
                }
                if i + 1 < count {
                    assert(raw[i + 1] == (splits@[i + 1].0 as int, splits@[i + 1].1 as int));
                    assert(good_span(t, self.size as int, raw[i + 1]));
                }
            }
            let core = splits[i];
            let before = if i > 0 {
                self.tail(input, splits[i - 1])
            } else {
                (core.0, core.0)
            };
            let after = if i + 1 < count {
                self.head(input, splits[i + 1])
            } else {
                (core.1, core.1)
            };
            let ghost here = stitch_at(t, raw, self.overlap as int, i as int);
            let chunk = stitch(input, before, core, after);
            let ghost rest = kept_from(t, raw, self.overlap as int, i + 1);
            if !is_blank_str(chunk.as_str()) {
                proof {
                    if kept.len() > 0 {
                        lemma_stitch_order(
                            t,
                            self.size as int,
                            raw,
                            self.overlap as int,
                            last,
                            i as int,
                        );
                    }
                }
                chunks.push(chunk);
                proof {
                    assert(kept + (seq![here] + rest) =~= kept.push(here) + rest);
                    kept = kept.push(here);
                    last = i as int;
                }
            }
        }
        assert(kept =~= goal);
        Ok(chunks)
    }
}

impl Default for Recursive<'_> {
    /// A splitter for plain text, with the default size and overlap.
    fn default() -> (r: Self)
        ensures
            r.size == DEFAULT_SIZE,
            r.overlap == DEFAULT_OVERLAP,
            delimiter_chars(r.delims@) == default_delimiters(),
    {
        Recursive { size: DEFAULT_SIZE, overlap: DEFAULT_OVERLAP, delims: default_delims() }
    }
}

} // verus!
