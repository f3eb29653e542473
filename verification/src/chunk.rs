//! What all chunkers share: the chunk, the error and the chunking contract.
use crate::text::{byte_len, decimal, decimal_string, lemma_str_bytes, slice};
use std::borrow::Cow;
use vstd::prelude::*;
use vstd::string::{StringExecFns, StringSliceAdditionalSpecFns};
use vstd::utf8::{encode_utf8, is_char_boundary};

verus! {

/// Chunk size that the chunkers start from.
pub const DEFAULT_SIZE: usize = 1000;

/// Overlap, in bytes, that the byte-counting chunkers start from.
pub const DEFAULT_OVERLAP: usize = 500;

/// Why a chunker could not be built or a range could not be sliced.
#[derive(Debug)]
pub enum ChunkerError {
    /// The parameters of a chunker contradict each other.
    Config(String),
    /// The byte range `start..end` does not lie within the text on code-point
    /// boundaries.
    BoundaryViolation { start: usize, end: usize },
}

/// What is said of a range that does not lie on code-point boundaries.
pub open spec fn boundary_message(start: usize, end: usize) -> Seq<char> {
    "utf-8: the bytes "@ + decimal(start as nat) + ".."@ + decimal(end as nat)
        + " do not lie between two characters"@
}

impl ChunkerError {
    /// The text of the error: for `Config` the text it holds, for
    /// `BoundaryViolation` the range that was refused.
    pub open spec fn text(&self) -> Seq<char> {
        match self {
            ChunkerError::Config(m) => m@,
            ChunkerError::BoundaryViolation { start, end } => boundary_message(*start, *end),
        }
    }

    /// The error as a text for people to read.
    pub fn message(&self) -> (m: String)
        ensures
            m@ == self.text(),
    {
        match self {
            ChunkerError::Config(text) => text.clone(),
            ChunkerError::BoundaryViolation { start, end } => {
                let mut m = String::from_str("utf-8: the bytes ");
                m.append(decimal_string(*start).as_str());
                m.append("..");
                m.append(decimal_string(*end).as_str());
                m.append(" do not lie between two characters");
                m
            },
        }
    }
}

/// A slice of a source text together with the byte range it came from.
///
/// `start` and `end` are byte offsets into the source. A chunk that was cut
/// in one piece borrows from the source and holds exactly the bytes of
/// `start..end`; one that was stitched from pieces that do not touch owns a
/// copy of them, and `start..end` is the smallest range that holds them all.
#[derive(Debug)]
pub struct Chunk<'a> {
    /// The text of the chunk.
    pub content: Cow<'a, str>,
    /// The byte offset in the source at which the chunk starts.
    pub start: usize,
    /// The byte offset in the source at which the chunk ends.
    pub end: usize,
}

impl<'a> Chunk<'a> {
    /// The bytes of the chunk's text.
    pub open spec fn bytes(&self) -> Seq<u8> {
        encode_utf8(self.content@)
    }

    /// The range of the chunk lies within `source`, on code-point boundaries.
    pub open spec fn within(&self, source: Seq<u8>) -> bool {
        &&& self.start <= self.end <= source.len()
        &&& is_char_boundary(source, self.start as int)
        &&& is_char_boundary(source, self.end as int)
    }

    /// The chunk is the part `start..end` of `source`, unchanged.
    pub open spec fn views(&self, source: Seq<u8>) -> bool {
        &&& self.within(source)
        &&& self.bytes() == source.subrange(self.start as int, self.end as int)
    }

    /// A chunk that spans the whole of `content`.
    pub fn new(content: &'a str) -> (c: Self)
        ensures
            c.content@ == content@,
            c.start == 0,
            c.end == content.spec_bytes().len(),
            c.views(content.spec_bytes()),
            c.content is Borrowed,
    {
        proof {
            lemma_str_bytes(content);
            assert(content.spec_bytes().subrange(0, content.spec_bytes().len() as int)
                =~= content.spec_bytes());
        }
        Chunk { content: Cow::Borrowed(content), start: 0, end: byte_len(content) }
    }

    /// The chunk that views the bytes `start..end` of `source`. The range is
    /// refused unless it lies within the text on code-point boundaries.
    pub fn slice(source: &'a str, start: usize, end: usize) -> (r: Result<Self, ChunkerError>)
        ensures
            match r {
                Ok(c) => c.start == start && c.end == end && c.views(source.spec_bytes()),
                Err(e) => e == (ChunkerError::BoundaryViolation { start, end }),
            },
            r is Ok <==> (start <= end <= source.spec_bytes().len() && is_char_boundary(
                source.spec_bytes(),
                start as int,
            ) && is_char_boundary(source.spec_bytes(), end as int)),
    {
        if start <= end && end <= byte_len(source) && source.is_char_boundary(start)
            && source.is_char_boundary(end) {
            Ok(Chunk::cut(source, start, end))
        } else {
            Err(ChunkerError::BoundaryViolation { start, end })
        }
    }

    /// The chunk that views the bytes `start..end` of `source`.
    pub fn cut(source: &'a str, start: usize, end: usize) -> (c: Self)
        requires
            start <= end <= source.spec_bytes().len(),
            is_char_boundary(source.spec_bytes(), start as int),
            is_char_boundary(source.spec_bytes(), end as int),
        ensures
            c.start == start,
            c.end == end,
            c.views(source.spec_bytes()),
            c.content is Borrowed,
    {
        Chunk { content: Cow::Borrowed(slice(source, start, end)), start, end }
    }

    /// The text of the chunk.
    pub fn as_str(&self) -> (s: &str)
        ensures
            s@ == self.content@,
    {
        match &self.content {
            Cow::Borrowed(s) => s,
            Cow::Owned(s) => s.as_str(),
        }
    }

    /// The length of the chunk's text in bytes.
    pub fn len(&self) -> (n: usize)
        ensures
            n == self.bytes().len(),
    {
        byte_len(self.as_str())
    }

    /// Tells whether the chunk holds no text.
    pub fn is_empty(&self) -> (r: bool)
        ensures
            r == (self.bytes().len() == 0),
    {
        self.len() == 0
    }
}

/// A sequence of ranges as pairs of integers.
pub open spec fn span_seq(spans: Seq<(usize, usize)>) -> Seq<(int, int)> {
    Seq::new(spans.len(), |i: int| (spans[i].0 as int, spans[i].1 as int))
}

/// The byte ranges of a sequence of chunks, in order.
pub open spec fn spans_of(chunks: Seq<Chunk<'_>>) -> Seq<(int, int)> {
    Seq::new(chunks.len(), |i: int| (chunks[i].start as int, chunks[i].end as int))
}

/// A way to cut a text into chunks.
///
/// Chunking is a pure function of the chunker and the input. It never fails:
/// every range that a chunker reports lies within the input on code-point
/// boundaries, so no slice can split a character. The chunks come in the
/// order of the text: no chunk ends before the chunk before it.
pub trait Chunker {
    fn chunk<'a>(&self, input: &'a str) -> (r: Result<Vec<Chunk<'a>>, ChunkerError>)
        ensures
            r matches Ok(chunks) && {
                &&& forall|i: int|
                    0 <= i < chunks@.len() ==> (#[trigger] chunks@[i]).within(input.spec_bytes())
                &&& forall|i: int|
                    0 < i < chunks@.len() ==> chunks@[i - 1].end <= (#[trigger] chunks@[i]).end
            },
    ;
}

} // verus!
