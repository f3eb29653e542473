//! Text chunking: turns a body of text into an ordered sequence of bounded,
//! possibly overlapping slices.
//!
//! Three chunkers share the [`Chunker`] contract:
//!
//! * [`SlidingWindow`] cuts fixed-size windows by byte count,
//! * [`Recursive`] splits along a hierarchy of delimiters and stitches
//!   neighbouring pieces together,
//! * [`SnappingSlidingWindow`] grows windows sentence by sentence and snaps
//!   their ends to sentence stops.
//!
//! Every offset that a chunker reports lies on a code-point boundary of the
//! input, which is proved rather than tested.
pub mod chars;
pub mod chunk;
pub mod cursor;
pub mod seq;
pub mod ssw;
pub mod sw;
pub mod text;

pub use chunk::{Chunk, Chunker, ChunkerError, DEFAULT_OVERLAP, DEFAULT_SIZE};
pub use cursor::{Cursor, CursorRev};
pub use seq::Recursive;
pub use ssw::SnappingSlidingWindow;
pub use sw::SlidingWindow;
