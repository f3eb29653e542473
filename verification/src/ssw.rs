//! The snapping sliding window: a window that grows sentence by sentence
//! and snaps both its ends to sentence stops.
//!
//! The chunker works on characters, so that no chunk can split one: sizes
//! and positions count characters, and each chunk is reported with the byte
//! range that its characters take in the input.
use crate::chars::{decode, lemma_prefix_boundary, lemma_prefix_len, lemma_same_bytes, prefix_len};
use crate::chunk::{span_seq, Chunk, Chunker, ChunkerError, DEFAULT_SIZE};
use crate::cursor::{
    lemma_next_stop, lemma_prev_stop, next_stop, pattern_chars, prev_stop, sentence_bound, Cursor,
    CursorRev,
};
use crate::text::lemma_str_bytes;
use vstd::prelude::*;
use vstd::string::StringSliceAdditionalSpecFns;

verus! {

/// The rules of a snapping sliding window, as plain values.
pub struct Snap {
    /// The least number of characters in the core of a chunk.
    pub size: int,
    /// The number of stops that a chunk reaches beyond its core, on each
    /// side.
    pub overlap: int,
    /// The character that ends a sentence.
    pub delim: char,
    /// A stop is none if one of these stands behind its delimiter.
    pub forward: Seq<Seq<char>>,
    /// A stop is none if one of these stands before its delimiter.
    pub back: Seq<Seq<char>>,
}

/// Where a forward walk over `steps` sentence stops ends that starts at
/// `pos`.
pub open spec fn walk_forward(text: Seq<char>, rules: Snap, steps: int, pos: int) -> int
    decreases steps,
{
    if steps <= 0 {
        pos
    } else {
        walk_forward(
            text,
            rules,
            steps - 1,
            next_stop(text, rules.delim, rules.forward, rules.back, pos),
        )
    }
}

/// Where a backward walk over `steps` sentence stops ends that starts at
/// `pos`.
pub open spec fn walk_backward(text: Seq<char>, rules: Snap, steps: int, pos: int) -> int
    decreases steps,
{
    if steps <= 0 {
        pos
    } else {
        walk_backward(
            text,
            rules,
            steps - 1,
            prev_stop(text, rules.delim, rules.forward, rules.back, pos),
        )
    }
}

/// `pos` is the start of the text, its end, or a stop that ends a
/// sentence by the rules.
pub open spec fn bound(text: Seq<char>, rules: Snap, pos: int) -> bool {
    sentence_bound(text, rules.delim, pos, rules.forward, rules.back)
}

/// A forward walk from a sentence bound stays within the text, does not
/// go back, and ends at a sentence bound.
pub proof fn lemma_walk_forward(text: Seq<char>, rules: Snap, steps: int, pos: int)
    requires
        0 <= pos <= text.len(),
    ensures
        pos <= walk_forward(text, rules, steps, pos) <= text.len(),
        bound(text, rules, pos) ==> bound(text, rules, walk_forward(text, rules, steps, pos)),
        pos == text.len() ==> walk_forward(text, rules, steps, pos) == pos,
    decreases steps,
{
    if steps > 0 {
        let next = next_stop(text, rules.delim, rules.forward, rules.back, pos);
        lemma_next_stop(text, rules.delim, rules.forward, rules.back, pos);
        lemma_walk_forward(text, rules, steps - 1, next);
    }
}

/// A backward walk from a sentence bound stays within the text, does not
/// go on, and ends at a sentence bound.
pub proof fn lemma_walk_backward(text: Seq<char>, rules: Snap, steps: int, pos: int)
    requires
        0 <= pos <= text.len(),
    ensures
        0 <= walk_backward(text, rules, steps, pos) <= pos,
        bound(text, rules, pos) ==> bound(text, rules, walk_backward(text, rules, steps, pos)),
        pos == 0 ==> walk_backward(text, rules, steps, pos) == 0,
    decreases steps,
{
    if steps > 0 {
        let next = prev_stop(text, rules.delim, rules.forward, rules.back, pos);
        lemma_prev_stop(text, rules.delim, rules.forward, rules.back, pos);
        lemma_walk_backward(text, rules, steps - 1, next);
    }
}

/// A walk that starts one stop later ends one stop later.
pub proof fn lemma_walk_forward_shift(text: Seq<char>, rules: Snap, steps: int, pos: int)
    ensures
        walk_forward(
            text,
            rules,
            steps,
            next_stop(text, rules.delim, rules.forward, rules.back, pos),
        ) == next_stop(
            text,
            rules.delim,
            rules.forward,
            rules.back,
            walk_forward(text, rules, steps, pos),
        ),
    decreases steps,
{
    if steps > 0 {
        lemma_walk_forward_shift(
            text,
            rules,
            steps - 1,
            next_stop(text, rules.delim, rules.forward, rules.back, pos),
        );
    }
}

/// A walk that starts later does not end earlier, if it starts where a walk
/// to the next stop has led.
pub proof fn lemma_walk_forward_later(text: Seq<char>, rules: Snap, steps: int, pos: int)
    requires
        0 <= pos <= text.len(),
    ensures
        walk_forward(text, rules, steps, pos) <= walk_forward(
            text,
            rules,
            steps,
            next_stop(text, rules.delim, rules.forward, rules.back, pos),
        ),
{
    lemma_walk_forward_shift(text, rules, steps, pos);
    lemma_walk_forward(text, rules, steps, pos);
    lemma_next_stop(
        text,
        rules.delim,
        rules.forward,
        rules.back,
        walk_forward(text, rules, steps, pos),
    );
}

/// The chunks that are still to come when the core of the chunk in the
/// making began at `core` and the cursor stands at `cursor`.
///
/// The cursor walks to the next stop that ends a sentence. While the core
/// holds fewer than `size` characters the walk goes on. A core of `size`
/// characters or more is closed: its chunk reaches `overlap` sentences
/// back from the start of the core and `overlap` sentences on from its
/// end, and the next core begins where this one ended. The chunks end with
/// the one that reaches the end of the text. If the text ends before the
/// core holds `size` characters, the core alone is the last chunk.
pub open spec fn snap_from(text: Seq<char>, rules: Snap, core: int, cursor: int) -> Seq<(int, int)>
    decreases text.len() - cursor,
{
    let n = text.len() as int;
    let stop = next_stop(text, rules.delim, rules.forward, rules.back, cursor);
    let chunk = (
        walk_backward(text, rules, rules.overlap, core),
        walk_forward(text, rules, rules.overlap, stop),
    );
    if !(cursor < stop <= n) {
        seq![(core, n)]
    } else if stop - core < rules.size {
        if stop >= n {
            seq![(core, n)]
        } else {
            snap_from(text, rules, core, stop)
        }
    } else if chunk.1 >= n {
        seq![chunk]
    } else {
        seq![chunk] + snap_from(text, rules, stop, stop)
    }
}

/// The character ranges of the chunks of `text`: none of an empty text.
pub open spec fn snap_spans(text: Seq<char>, rules: Snap) -> Seq<(int, int)> {
    if text.len() == 0 {
        Seq::empty()
    } else {
        snap_from(text, rules, 0, 0)
    }
}

/// Some range of the sequence holds the position `x`.
pub open spec fn covered(spans: Seq<(int, int)>, x: int) -> bool {
    exists|j: int| 0 <= j < spans.len() && (#[trigger] spans[j]).0 <= x < spans[j].1
}

/// What the ranges hold they still hold when one more range is added.
pub proof fn lemma_covered_push(spans: Seq<(int, int)>, span: (int, int), x: int)
    requires
        covered(spans, x) || span.0 <= x < span.1,
    ensures
        covered(spans.push(span), x),
{
    let more = spans.push(span);
    if covered(spans, x) {
        let j = choose|j: int| 0 <= j < spans.len() && (#[trigger] spans[j]).0 <= x < spans[j].1;
        assert(more[j] == spans[j]);
    } else {
        assert(more[spans.len() as int] == span);
    }
}

/// What stands behind a full stop that ends no sentence: the ends of web
/// addresses and file names, and the second halves of abbreviations.
pub open spec fn default_skip_forward() -> Seq<Seq<char>> {
    seq!["com"@, "org"@, "net"@, "g."@, "e."@, "sh"@, "rs"@, "js"@, "json"@]
}

/// What stands before a full stop that ends no sentence: abbreviations and
/// the start of web addresses.
pub open spec fn default_skip_back() -> Seq<Seq<char>> {
    seq!["www"@, "etc"@, "e.g"@, "i.e"@]
}

/// A chunker for texts that are written for people to read: a sliding
/// window that knows where sentences stop.
///
/// A chunk is made of whole sentences: its core takes sentences until it
/// holds `size` characters or more, and the chunk reaches `overlap`
/// sentences beyond the core on both sides. So `size` is a lower bound, and
/// chunks are mostly somewhat longer.
///
/// A sentence ends with `delimiter`. The delimiter ends none where one of
/// `skip_forward` stands right behind it or one of `skip_back` right before
/// it; that keeps abbreviations and web addresses in one piece.
#[derive(Debug)]
pub struct SnappingSlidingWindow<'skip> {
    /// The least number of characters in the core of a chunk.
    pub size: usize,
    /// The number of sentences that a chunk takes from before its core and
    /// from behind it.
    pub overlap: usize,
    /// The character that ends a sentence.
    pub delimiter: char,
    /// What stands right behind a delimiter that ends no sentence.
    pub skip_forward: &'skip [&'skip str],
    /// What stands right before a delimiter that ends no sentence.
    pub skip_back: &'skip [&'skip str],
}

/// The patterns behind a delimiter that a chunker skips unless it is told
/// otherwise.
pub fn skip_forward_defaults() -> (r: &'static [&'static str])
    ensures
        pattern_chars(r@) == default_skip_forward(),
{
    let r: &'static [&'static str] = &["com", "org", "net", "g.", "e.", "sh", "rs", "js", "json"];
    assert(pattern_chars(r@) =~= default_skip_forward());
    r
}

/// The patterns before a delimiter that a chunker skips unless it is told
/// otherwise.
pub fn skip_back_defaults() -> (r: &'static [&'static str])
    ensures
        pattern_chars(r@) == default_skip_back(),
{
    let r: &'static [&'static str] = &["www", "etc", "e.g", "i.e"];
    assert(pattern_chars(r@) =~= default_skip_back());
    r
}

impl<'skip> SnappingSlidingWindow<'skip> {
    /// The rules of the chunker as plain values.
    pub open spec fn rules(&self) -> Snap {
        Snap {
            size: self.size as int,
            overlap: self.overlap as int,
            delim: self.delimiter,
            forward: pattern_chars(self.skip_forward@),
            back: pattern_chars(self.skip_back@),
        }
    }

    /// A chunker of the given size and overlap that ends sentences at `.`
    /// and skips the usual abbreviations and web addresses.
    pub fn new(size: usize, overlap: usize) -> (r: Self)
        ensures
            r.rules() == (Snap {
                size: size as int,
                overlap: overlap as int,
                delim: '.',
                forward: default_skip_forward(),
                back: default_skip_back(),
            }),
    {
        Self {
            size,
            overlap,
            delimiter: '.',
            skip_forward: skip_forward_defaults(),
            skip_back: skip_back_defaults(),
        }
    }

    /// The same chunker with another delimiter.
    pub fn delimiter(self, delimiter: char) -> (r: Self)
        ensures
            r == (Self { delimiter, ..self }),
    {
        let mut r = self;
        r.delimiter = delimiter;
        r
    }

    /// The same chunker with other patterns to skip behind a delimiter.
    pub fn skip_forward(self, skip_forward: &'skip [&'skip str]) -> (r: Self)
        ensures
            r == (Self { skip_forward, ..self }),
    {
        let mut r = self;
        r.skip_forward = skip_forward;
        r
    }

    /// The same chunker with other patterns to skip before a delimiter.
    pub fn skip_back(self, skip_back: &'skip [&'skip str]) -> (r: Self)
        ensures
            r == (Self { skip_back, ..self }),
    {
        let mut r = self;
        r.skip_back = skip_back;
        r
    }

    /// Where the chunk begins whose core begins at `core`: `overlap`
    /// sentences back.
    pub fn look_back(&self, text: &[char], core: usize) -> (r: usize)
        requires
            core <= text@.len(),
        ensures
            r == walk_backward(text@, self.rules(), self.overlap as int, core as int),
            r <= core,
            bound(text@, self.rules(), core as int) ==> bound(text@, self.rules(), r as int),
    {
        let ghost rules = self.rules();
        let ghost goal = walk_backward(text@, rules, self.overlap as int, core as int);
        proof {
            lemma_walk_backward(text@, rules, self.overlap as int, core as int);
        }
        let mut cursor = CursorRev::at(text, self.delimiter, core);
        let mut left = self.overlap;
        while left > 0 && cursor.pos() > 0
            invariant
                rules == self.rules(),
                cursor@.text == text@,
                cursor@.delim == self.delimiter,
                cursor@.pos <= text@.len(),
                walk_backward(text@, rules, left as int, cursor@.pos) == goal,
            decreases left,
        {
            cursor.advance_to_stop(self.skip_forward, self.skip_back);
            left = left - 1;
        }
        proof {
            lemma_walk_backward(text@, rules, left as int, cursor@.pos);
        }
        cursor.pos()
    }

    /// Where the chunk ends whose core ends at `stop`: `overlap` sentences
    /// on.
    pub fn look_ahead(&self, text: &[char], stop: usize) -> (r: usize)
        requires
            stop <= text@.len(),
        ensures
            r == walk_forward(text@, self.rules(), self.overlap as int, stop as int),
            stop <= r <= text@.len(),
            bound(text@, self.rules(), stop as int) ==> bound(text@, self.rules(), r as int),
    {
        let ghost rules = self.rules();
        let ghost goal = walk_forward(text@, rules, self.overlap as int, stop as int);
        proof {
            lemma_walk_forward(text@, rules, self.overlap as int, stop as int);
        }
        let n = text.len();
        let mut cursor = Cursor::at(text, self.delimiter, stop);
        let mut left = self.overlap;
        while left > 0 && cursor.pos() < n
            invariant
                n == text@.len(),
                rules == self.rules(),
                cursor@.text == text@,
                cursor@.delim == self.delimiter,
                cursor@.pos <= text@.len(),
                walk_forward(text@, rules, left as int, cursor@.pos) == goal,
            decreases left,
        {
            cursor.advance_to_stop(self.skip_forward, self.skip_back);
            left = left - 1;
        }
        proof {
            lemma_walk_forward(text@, rules, left as int, cursor@.pos);
        }
        cursor.pos()
    }

    /// The character ranges of the chunks of `text`, in order.
    ///
    /// No range is empty, and each begins and ends at a sentence bound: at
    /// the start of the text, at its end, or right behind a delimiter that
    /// no pattern skips. The first range begins at the start of the text,
    /// the last ends at its end, every character lies in some range, and
    /// the ends of the ranges never move backwards.
    pub fn spans(&self, text: &[char]) -> (out: Vec<(usize, usize)>)
        ensures
            span_seq(out@) == snap_spans(text@, self.rules()),
            forall|i: int|
                0 <= i < out@.len() ==> {
                    &&& (#[trigger] out@[i]).0 < out@[i].1 <= text@.len()
                    &&& bound(text@, self.rules(), out@[i].0 as int)
                    &&& bound(text@, self.rules(), out@[i].1 as int)
                },
            forall|i: int| 0 < i < out@.len() ==> out@[i - 1].1 <= (#[trigger] out@[i]).1,
            text@.len() > 0 ==> out@.len() > 0 && out@[0].0 == 0 && out@[out@.len() - 1].1
                == text@.len(),
            forall|x: int| 0 <= x < text@.len() ==> covered(span_seq(out@), x),
    {
        let n = text.len();
        let mut out: Vec<(usize, usize)> = Vec::new();
        if n == 0 {
            assert(span_seq(out@) =~= snap_spans(text@, self.rules()));
            return out;
        }
        let ghost rules = self.rules();
        let ghost goal = snap_from(text@, rules, 0, 0);
        let mut cursor = Cursor::new(text, self.delimiter);
        let mut core: usize = 0;
        let mut done = false;
        assert(span_seq(out@) + goal =~= goal);
        while !done
            invariant
                n == text@.len(),
                n > 0,
                rules == self.rules(),
                cursor@.text == text@,
                cursor@.delim == self.delimiter,
                core <= cursor@.pos <= n,
                core < n,
                bound(text@, rules, core as int),
                out@.len() == 0 ==> core == 0,
                out@.len() > 0 ==> out@[0].0 == 0,
                !done && out@.len() > 0 ==> out@[out@.len() - 1].1 <= walk_forward(
                    text@,
                    rules,
                    self.overlap as int,
                    cursor@.pos,
                ),
                forall|x: int| 0 <= x < core ==> covered(span_seq(out@), x),
                done ==> forall|x: int| 0 <= x < n ==> covered(span_seq(out@), x),
                done ==> out@.len() > 0 && out@[out@.len() - 1].1 == n,
                !done ==> span_seq(out@) + snap_from(text@, rules, core as int, cursor@.pos)
                    == goal,
                done ==> span_seq(out@) == goal,
                forall|i: int|
                    0 <= i < out@.len() ==> {
                        &&& (#[trigger] out@[i]).0 < out@[i].1 <= n
                        &&& bound(text@, rules, out@[i].0 as int)
                        &&& bound(text@, rules, out@[i].1 as int)
                    },
                forall|i: int| 0 < i < out@.len() ==> out@[i - 1].1 <= (#[trigger] out@[i]).1,
            decreases
                    (if done {
                        0
                    } else {
                        n - cursor@.pos + 1
                    }),
        {
            let ghost sofar = span_seq(out@);
            let from = cursor.pos();
            proof {
                lemma_walk_forward_later(text@, rules, self.overlap as int, from as int);
                lemma_walk_forward(text@, rules, self.overlap as int, from as int);
            }
            cursor.advance_to_stop(self.skip_forward, self.skip_back);
            let stop = cursor.pos();
            if !(from < stop) || (stop - core < self.size && stop >= n) {
                out.push((core, n));
                done = true;
                assert(span_seq(out@) =~= sofar + seq![(core as int, n as int)]);
                assert forall|x: int| 0 <= x < n implies covered(span_seq(out@), x) by {
                    assert(sofar + seq![(core as int, n as int)] =~= sofar.push(
                        (core as int, n as int),
                    ));
                    lemma_covered_push(sofar, (core as int, n as int), x);
                }
            } else if stop - core >= self.size {
                let lo = self.look_back(text, core);
                let hi = self.look_ahead(text, stop);
                out.push((lo, hi));
                let ghost chunk = (lo as int, hi as int);
                let ghost rest = snap_from(text@, rules, stop as int, stop as int);
                assert(span_seq(out@) =~= sofar + seq![chunk]);
                assert forall|x: int| 0 <= x < hi implies covered(span_seq(out@), x) by {
                    assert(sofar + seq![chunk] =~= sofar.push(chunk));
                    lemma_covered_push(sofar, chunk, x);
                }
                if hi >= n {
                    done = true;
                } else {
                    assert(sofar + (seq![chunk] + rest) =~= (sofar + seq![chunk]) + rest);
                    core = stop;
                }
            }
        }
        out
    }
}

impl<'skip> Chunker for SnappingSlidingWindow<'skip> {
    /// Cuts the input into chunks of whole sentences. Chunk `i` holds the
    /// characters of range `i` of `snap_spans`, and reports the bytes that
    /// they take in the input.
    ///
    /// Every chunk begins and ends at a sentence bound: no chunk begins or
    /// ends inside the text but right behind a delimiter, and never where a
    /// pattern to skip stands before the delimiters or behind them. The
    /// chunks cover the whole input, and their ends never move backwards.
    fn chunk<'a>(&self, input: &'a str) -> (r: Result<Vec<Chunk<'a>>, ChunkerError>)
        ensures
            r matches Ok(chunks) && {
                let spans = snap_spans(input@, self.rules());
                &&& chunks@.len() == spans.len()
                &&& forall|i: int|
                    0 <= i < chunks@.len() ==> {
                        &&& 0 <= spans[i].0 < spans[i].1 <= input@.len()
                        &&& (#[trigger] chunks@[i]).content@ == input@.subrange(
                            spans[i].0,
                            spans[i].1,
                        )
                        &&& chunks@[i].start == prefix_len(input@, spans[i].0)
                        &&& chunks@[i].end == prefix_len(input@, spans[i].1)
                        &&& chunks@[i].views(input.spec_bytes())
                        &&& chunks@[i].content is Borrowed
                    }
                &&& input@.len() == 0 ==> chunks@.len() == 0
                &&& input@.len() > 0 ==> chunks@.len() > 0 && chunks@[0].start == 0
                    && chunks@[chunks@.len() - 1].end == input.spec_bytes().len()
                &&& forall|x: int| 0 <= x < input@.len() ==> covered(spans, x)
                &&& forall|i: int|
                    0 <= i < spans.len() ==> bound(input@, self.rules(), (#[trigger] spans[i]).0)
                        && bound(input@, self.rules(), spans[i].1)
                &&& forall|i: int| 0 < i < spans.len() ==> spans[i - 1].1 <= (#[trigger] spans[i]).1
            },
    {
        let (text, offsets) = decode(input);
        let spans = self.spans(text.as_slice());
        let ghost goal = snap_spans(input@, self.rules());
        assert(span_seq(spans@).len() == spans@.len());
        let mut chunks: Vec<Chunk<'a>> = Vec::new();
        proof {
            lemma_str_bytes(input);
        }
        for i in 0..spans.len()
            invariant
                text@ == input@,
                offsets@.len() == input@.len() + 1,
                forall|j: int|
                    0 <= j <= input@.len() ==> #[trigger] offsets@[j] == prefix_len(input@, j),
                span_seq(spans@) == goal,
                forall|j: int|
                    0 <= j < spans@.len() ==> (#[trigger] spans@[j]).0 < spans@[j].1
                        <= text@.len(),
                forall|j: int|
                    0 <= j < spans@.len() ==> bound(
                        text@,
                        self.rules(),
                        (#[trigger] spans@[j]).0 as int,
                    ) && bound(text@, self.rules(), spans@[j].1 as int),
                forall|j: int| 0 < j < spans@.len() ==> spans@[j - 1].1 <= (#[trigger] spans@[j]).1,
                chunks@.len() == i,
                forall|j: int|
                    0 <= j < i ==> {
                        &&& 0 <= goal[j].0 < goal[j].1 <= input@.len()
                        &&& (#[trigger] chunks@[j]).content@ == input@.subrange(
                            goal[j].0,
                            goal[j].1,
                        )
                        &&& chunks@[j].start == prefix_len(input@, goal[j].0)
                        &&& chunks@[j].end == prefix_len(input@, goal[j].1)
                        &&& chunks@[j].views(input.spec_bytes())
                        &&& chunks@[j].content is Borrowed
                    },
                forall|j: int| 0 < j < i ==> chunks@[j - 1].end <= (#[trigger] chunks@[j]).end,
        {
            let (lo, hi) = spans[i];
            proof {
                assert(span_seq(spans@)[i as int] == (lo as int, hi as int));
                if i > 0 {
                    assert(goal[i - 1] == (spans@[i - 1].0 as int, spans@[i - 1].1 as int));
                    lemma_prefix_len(input@, spans@[i - 1].1 as int, hi as int);
                }
                lemma_prefix_len(input@, lo as int, hi as int);
                lemma_prefix_boundary(input@, lo as int);
                lemma_prefix_boundary(input@, hi as int);
            }
            let chunk = Chunk::cut(input, offsets[lo], offsets[hi]);
            proof {
                lemma_same_bytes(chunk.content@, input@.subrange(lo as int, hi as int));
            }
            chunks.push(chunk);
        }
        proof {
            assert forall|i: int| 0 <= i < goal.len() implies bound(
                input@,
                self.rules(),
                (#[trigger] goal[i]).0,
            ) && bound(input@, self.rules(), goal[i].1) by {
                assert(goal[i] == (spans@[i].0 as int, spans@[i].1 as int));
            }
            assert forall|i: int| 0 < i < goal.len() implies goal[i - 1].1 <= (
            #[trigger] goal[i]).1 by {
                assert(goal[i] == (spans@[i].0 as int, spans@[i].1 as int));
                assert(goal[i - 1] == (spans@[i - 1].0 as int, spans@[i - 1].1 as int));
            }
            if input@.len() > 0 {
                let last = spans@.len() - 1;
                assert(goal[0] == (spans@[0].0 as int, spans@[0].1 as int));
                assert(goal[last] == (spans@[last].0 as int, spans@[last].1 as int));
                lemma_prefix_len(input@, 0, input@.len() as int);
            }
        }
        Ok(chunks)
    }
}

impl Default for SnappingSlidingWindow<'_> {
    /// A chunker of `DEFAULT_SIZE` characters that reaches 5 sentences
    /// beyond each core.
    fn default() -> (r: Self)
        ensures
            r.rules() == (Snap {
                size: DEFAULT_SIZE as int,
                overlap: 5,
                delim: '.',
                forward: default_skip_forward(),
                back: default_skip_back(),
            }),
    {
        SnappingSlidingWindow::new(DEFAULT_SIZE, 5)
    }
}

} // verus!
