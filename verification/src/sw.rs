//! The sliding window: windows of a fixed size in bytes, each widened by a
//! fixed overlap on both sides.
use crate::chunk::{spans_of, Chunk, Chunker, ChunkerError, DEFAULT_OVERLAP, DEFAULT_SIZE};
use crate::text::{
    decimal, decimal_string, floor_boundary, floor_char_boundary, lemma_floor_boundary,
    lemma_floor_greatest, lemma_floor_monotone, lemma_str_bytes, trim_bounds, trim_end,
    trim_start,
};
use vstd::prelude::*;
use vstd::string::{StringExecFns, StringSliceAdditionalSpecFns};
use vstd::utf8::{is_char_boundary, valid_utf8};

verus! {

/// The text that says why `overlap` cannot go with `size`.
pub open spec fn config_message(size: usize, overlap: usize) -> Seq<char> {
    "size ("@ + decimal(size as nat) + ") must be greater than overlap ("@ + decimal(
        overlap as nat,
    ) + ")"@
}

/// Writes the refusal of a size and an overlap.
fn render_config_message(size: usize, overlap: usize) -> (m: String)
    ensures
        m@ == config_message(size, overlap),
{
    let mut m = String::from_str("size (");
    m.append(decimal_string(size).as_str());
    m.append(") must be greater than overlap (");
    m.append(decimal_string(overlap).as_str());
    m.append(")");
    m
}

/// The windows that are still to be cut from the bytes `lo..hi` of `t` when
/// the first `start` bytes have been dealt out. Each window takes `size`
/// bytes and is widened by `overlap` bytes on both sides; an end that falls
/// inside a character moves down to the start of that character.
pub open spec fn windows_from(
    t: Seq<u8>,
    lo: int,
    hi: int,
    size: int,
    overlap: int,
    start: int,
) -> Seq<(int, int)>
    decreases hi - lo - start,
    when size > 0 && overlap >= 0
{
    let from = if start == 0 {
        lo
    } else {
        floor_boundary(t, lo + start - overlap)
    };
    if start + size + overlap > hi - lo {
        seq![(from, hi)]
    } else {
        seq![(from, floor_boundary(t, lo + start + size + overlap))] + windows_from(
            t,
            lo,
            hi,
            size,
            overlap,
            start + size,
        )
    }
}

/// The windows cut from the bytes `lo..hi` of `t`: none of an empty range,
/// the range itself if it is no longer than a widened window, else one
/// window every `size` bytes.
pub open spec fn windows(t: Seq<u8>, lo: int, hi: int, size: int, overlap: int) -> Seq<(int, int)> {
    if hi <= lo {
        Seq::empty()
    } else if hi - lo <= size + overlap {
        seq![(lo, hi)]
    } else {
        windows_from(t, lo, hi, size, overlap, 0)
    }
}

/// The cores of the windows that `windows_from` cuts: what each window
/// holds before it is widened.
pub open spec fn cores_from(
    t: Seq<u8>,
    lo: int,
    hi: int,
    size: int,
    overlap: int,
    start: int,
) -> Seq<(int, int)>
    decreases hi - lo - start,
    when size > 0 && overlap >= 0
{
    let from = floor_boundary(t, lo + start);
    if start + size + overlap > hi - lo {
        seq![(from, hi)]
    } else {
        seq![(from, floor_boundary(t, lo + start + size))] + cores_from(
            t,
            lo,
            hi,
            size,
            overlap,
            start + size,
        )
    }
}

/// The cores of the windows that `windows` cuts, one for each window.
pub open spec fn cores(t: Seq<u8>, lo: int, hi: int, size: int, overlap: int) -> Seq<(int, int)> {
    if hi <= lo {
        Seq::empty()
    } else if hi - lo <= size + overlap {
        seq![(lo, hi)]
    } else {
        cores_from(t, lo, hi, size, overlap, 0)
    }
}

/// The bytes of the given ranges of `t`, in a row.
pub open spec fn join(t: Seq<u8>, spans: Seq<(int, int)>) -> Seq<u8>
    decreases spans.len(),
{
    if spans.len() == 0 {
        Seq::empty()
    } else {
        t.subrange(spans[0].0, spans[0].1) + join(t, spans.drop_first())
    }
}

/// From any window on, each core lies within its window, and the cores in
/// a row are the text from the start of the first of them to its end.
pub proof fn lemma_cores_from(t: Seq<u8>, lo: int, hi: int, size: int, overlap: int, start: int)
    requires
        valid_utf8(t),
        0 <= lo <= hi <= t.len(),
        is_char_boundary(t, lo),
        is_char_boundary(t, hi),
        0 <= overlap < size,
        0 <= start <= hi - lo,
        start == 0 || start > overlap,
    ensures
        ({
            let w = windows_from(t, lo, hi, size, overlap, start);
            let c = cores_from(t, lo, hi, size, overlap, start);
            &&& c.len() == w.len()
            &&& forall|i: int|
                0 <= i < c.len() ==> w[i].0 <= (#[trigger] c[i]).0 <= c[i].1 <= w[i].1
            &&& join(t, c) == t.subrange(floor_boundary(t, lo + start), hi)
        }),
    decreases hi - lo - start,
{
    let w = windows_from(t, lo, hi, size, overlap, start);
    let c = cores_from(t, lo, hi, size, overlap, start);
    let from = floor_boundary(t, lo + start);
    lemma_floor_boundary(t, lo + start);
    lemma_floor_boundary(t, lo as int);
    lemma_floor_greatest(t, lo + start, lo);
    lemma_floor_monotone(t, lo + start - overlap, lo + start);
    if start + size + overlap > hi - lo {
        assert(c.drop_first() =~= Seq::<(int, int)>::empty());
        assert(join(t, c) =~= t.subrange(from, hi)) by {
            reveal_with_fuel(join, 2);
        }
    } else {
        let to = floor_boundary(t, lo + start + size);
        lemma_cores_from(t, lo, hi, size, overlap, start + size);
        lemma_floor_boundary(t, lo + start + size);
        lemma_floor_monotone(t, lo + start, lo + start + size);
        lemma_floor_monotone(t, lo + start + size, lo + start + size + overlap);
        let rest_w = windows_from(t, lo, hi, size, overlap, start + size);
        let rest_c = cores_from(t, lo, hi, size, overlap, start + size);
        assert(c.drop_first() =~= rest_c);
        assert(w =~= seq![w[0]] + rest_w);
        assert forall|i: int| 0 <= i < c.len() implies w[i].0 <= (#[trigger] c[i]).0 <= c[i].1
            <= w[i].1 by {
            if i > 0 {
                assert(c[i] == rest_c[i - 1]);
                assert(w[i] == rest_w[i - 1]);
            }
        }
        assert(join(t, c) =~= t.subrange(from, hi));
    }
}

/// Taking the overlaps away gives the text back: there is one core for
/// each window that `windows` cuts from the bytes `lo..hi`, each core lies
/// within its window, and the cores in a row are the bytes `lo..hi`.
pub proof fn lemma_cores_rebuild(t: Seq<u8>, lo: int, hi: int, size: int, overlap: int)
    requires
        valid_utf8(t),
        0 <= lo <= hi <= t.len(),
        is_char_boundary(t, lo),
        is_char_boundary(t, hi),
        0 <= overlap < size,
    ensures
        ({
            let w = windows(t, lo, hi, size, overlap);
            let c = cores(t, lo, hi, size, overlap);
            &&& c.len() == w.len()
            &&& forall|i: int|
                0 <= i < c.len() ==> w[i].0 <= (#[trigger] c[i]).0 <= c[i].1 <= w[i].1
            &&& join(t, c) == t.subrange(lo, hi)
        }),
{
    let c = cores(t, lo, hi, size, overlap);
    if hi <= lo {
        assert(join(t, c) =~= t.subrange(lo, hi));
    } else if hi - lo <= size + overlap {
        assert(c.drop_first() =~= Seq::<(int, int)>::empty());
        assert(join(t, c) =~= t.subrange(lo, hi)) by {
            reveal_with_fuel(join, 2);
        }
    } else {
        lemma_cores_from(t, lo, hi, size, overlap, 0);
        lemma_floor_boundary(t, lo);
    }
}

/// The most basic of chunkers: `size` is the base length of every chunk and
/// `overlap` is how far each chunk reaches beyond its base on both sides.
/// The overlap is always smaller than the size.
#[derive(Debug)]
pub struct SlidingWindow {
    size: usize,
    overlap: usize,
}

impl SlidingWindow {
    #[verifier::type_invariant]
    spec fn overlap_below_size(self) -> bool {
        self.overlap < self.size
    }

    /// The base length of a chunk, in bytes.
    pub closed spec fn spec_size(&self) -> usize {
        self.size
    }

    /// The reach of a chunk beyond its base, in bytes.
    pub closed spec fn spec_overlap(&self) -> usize {
        self.overlap
    }

    /// A sliding window of the given size and overlap. The pair is refused
    /// unless the overlap is smaller than the size.
    pub fn new(size: usize, overlap: usize) -> (r: Result<Self, ChunkerError>)
        ensures
            overlap < size ==> (r matches Ok(w) && w.size() == size && w.overlap() == overlap),
            overlap >= size ==> (r matches Err(ChunkerError::Config(m)) && m@ == config_message(
                size,
                overlap,
            )),
    {
        if overlap >= size {
            return Err(ChunkerError::Config(render_config_message(size, overlap)));
        }
        Ok(Self { size, overlap })
    }

    /// The base length of a chunk, in bytes.
    #[verifier::when_used_as_spec(spec_size)]
    pub fn size(&self) -> (r: usize)
        ensures
            r == self.size(),
    {
        self.size
    }

    /// The reach of a chunk beyond its base, in bytes.
    #[verifier::when_used_as_spec(spec_overlap)]
    pub fn overlap(&self) -> (r: usize)
        ensures
            r == self.overlap(),
    {
        self.overlap
    }
}

impl Chunker for SlidingWindow {
    /// Cuts the input, without the white space around it, into windows. An
    /// input of white space only gives no chunk; one that is no longer than
    /// `size + overlap` gives itself as the only chunk.
    fn chunk<'a>(&self, input: &'a str) -> (r: Result<Vec<Chunk<'a>>, ChunkerError>)
        ensures
            r matches Ok(chunks) && {
                let t = input.spec_bytes();
                &&& spans_of(chunks@) == windows(
                    t,
                    trim_start(t),
                    trim_end(t),
                    self.size() as int,
                    self.overlap() as int,
                )
                &&& forall|i: int|
                    0 <= i < chunks@.len() ==> (#[trigger] chunks@[i]).views(t)
                        && chunks@[i].content is Borrowed
                &&& forall|i: int|
                    0 < i < chunks@.len() ==> chunks@[i - 1].start <= (#[trigger] chunks@[i]).start
                        && chunks@[i - 1].end <= chunks@[i].end
                &&& trim_start(t) == trim_end(t) ==> chunks@.len() == 0
                &&& trim_start(t) < trim_end(t) ==> chunks@.len() > 0 && chunks@[0].start
                    == trim_start(t) && chunks@[chunks@.len() - 1].end == trim_end(t)
                &&& 0 < trim_end(t) - trim_start(t) <= self.size() + self.overlap()
                    ==> chunks@.len() == 1 && chunks@[0].start == trim_start(t) && chunks@[0].end
                    == trim_end(t)
            },
    {
        proof {
            use_type_invariant(self);
            lemma_str_bytes(input);
        }
        let size = self.size;
        let overlap = self.overlap;
        let ghost t = input.spec_bytes();
        let (lo, hi) = trim_bounds(input);
        let mut chunks: Vec<Chunk<'a>> = Vec::new();
        let ghost goal = windows(t, lo as int, hi as int, size as int, overlap as int);
        if lo == hi {
            assert(spans_of(chunks@) =~= goal);
            return Ok(chunks);
        }
        let n = hi - lo;
        if n <= size || n - size <= overlap {
            chunks.push(Chunk::cut(input, lo, hi));
            assert(spans_of(chunks@) =~= goal);
            return Ok(chunks);
        }
        let ghost all = windows_from(t, lo as int, hi as int, size as int, overlap as int, 0);
        let mut start: usize = 0;
        let mut done = false;
        while !done
            invariant
                t == input.spec_bytes(),
                valid_utf8(t),
                lo <= hi <= t.len(),
                n == hi - lo,
                is_char_boundary(t, lo as int),
                is_char_boundary(t, hi as int),
                overlap < size,
                start <= n,
                start == 0 || start > overlap,
                all == windows_from(t, lo as int, hi as int, size as int, overlap as int, 0),
                !done ==> spans_of(chunks@) + windows_from(
                    t,
                    lo as int,
                    hi as int,
                    size as int,
                    overlap as int,
                    start as int,
                ) == all,
                done ==> spans_of(chunks@) == all,
                chunks@.len() == 0 ==> start == 0,
                chunks@.len() > 0 ==> chunks@[0].start == lo,
                !done && chunks@.len() > 0 ==> start + overlap <= n && chunks@[chunks@.len()
                    - 1].start <= floor_boundary(t, lo + start - overlap) && chunks@[chunks@.len()
                    - 1].end == floor_boundary(t, lo + start + overlap),
                forall|i: int|
                    0 < i < chunks@.len() ==> chunks@[i - 1].start <= (#[trigger] chunks@[i]).start
                        && chunks@[i - 1].end <= chunks@[i].end,
                done ==> chunks@.len() > 0 && chunks@[chunks@.len() - 1].end == hi,
                forall|i: int|
                    0 <= i < chunks@.len() ==> (#[trigger] chunks@[i]).views(t)
                        && chunks@[i].content is Borrowed,
            decreases
                    (if done {
                        0
                    } else {
                        n - start + 1
                    }),
        {
            let ghost before = spans_of(chunks@);
            let from = if start == 0 {
                lo
            } else {
                floor_char_boundary(input, lo + start - overlap)
            };
            proof {
                lemma_floor_boundary(t, lo as int);
                lemma_floor_boundary(t, lo + start + overlap);
                lemma_floor_monotone(t, lo as int, lo + start + size - overlap);
                lemma_floor_monotone(t, lo + start - overlap, lo + start + size - overlap);
                lemma_floor_monotone(t, lo + start + overlap, lo + start + size + overlap);
            }
            if n - start < size || n - start - size < overlap {
                chunks.push(Chunk::cut(input, from, hi));
                done = true;
                assert(spans_of(chunks@) =~= before + seq![(from as int, hi as int)]);
            } else {
                let to = floor_char_boundary(input, lo + start + size + overlap);
                proof {
                    lemma_floor_monotone(t, lo + start - overlap, lo + start + size + overlap);
                    lemma_floor_monotone(t, lo as int, lo + start + size + overlap);
                    lemma_floor_boundary(t, lo as int);
                }
                chunks.push(Chunk::cut(input, from, to));
                assert(spans_of(chunks@) =~= before + seq![(from as int, to as int)]);
                assert(before + (seq![(from as int, to as int)] + windows_from(
                    t,
                    lo as int,
                    hi as int,
                    size as int,
                    overlap as int,
                    start + size,
                )) =~= (before + seq![(from as int, to as int)]) + windows_from(
                    t,
                    lo as int,
                    hi as int,
                    size as int,
                    overlap as int,
                    start + size,
                ));
                start = start + size;
            }
        }
        Ok(chunks)
    }
}

impl Default for SlidingWindow {
    /// A window of `DEFAULT_SIZE` bytes with an overlap of `DEFAULT_OVERLAP`.
    fn default() -> (r: Self)
        ensures
            r.size() == DEFAULT_SIZE,
            r.overlap() == DEFAULT_OVERLAP,
    {
        Self { size: DEFAULT_SIZE, overlap: DEFAULT_OVERLAP }
    }
}

} // verus!
