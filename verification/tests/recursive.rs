use ledgeknaw::seq::{default_delims, markdown_delims, next_piece_end, stitch};
use ledgeknaw::text::decimal_string;
use ledgeknaw::{Chunk, Chunker, ChunkerError, Recursive, DEFAULT_OVERLAP, DEFAULT_SIZE};
use std::borrow::Cow;

const INPUT: &str = r#"
What I Worked On

February 2021

Before college the two main things I worked on, outside of school, were writing and programming. I didn't write essays. I wrote what beginning writers were supposed to write then, and probably still are: short stories. My stories were awful. They had hardly any plot... just characters with strong feelings, which I imagined made them deep.

The first programs I tried writing were on the IBM 1401 that our school district used for what was then called "data processing." This was in 9th grade, so I was 13 or 14. The school district's 1401 happened to be in the basement of our junior high school, and my friend Rich Draves and I got permission to use it. It was like a mini Bond villain's lair down there, with all these alien-looking machines — CPU, disk drives, printer, card reader — sitting up on a raised floor under bright fluorescent lights.
"#;

fn spans(chunks: &[Chunk]) -> Vec<(usize, usize)> {
    chunks.iter().map(|c| (c.start, c.end)).collect()
}

fn texts<'a>(chunks: &'a [Chunk]) -> Vec<&'a str> {
    chunks.iter().map(|c| c.as_str()).collect()
}

#[test]
fn chunk_pointer_sanity() {
    let input = "Hello\nWorld";
    let one = next_piece_end(input, "\n", 0, input.len());
    let two = next_piece_end(input, "\n", one, input.len());
    assert_eq!((6, 11), (one, two));

    let combined = stitch(input, (0, 0), (0, one), (one, two));
    assert_eq!(input, combined.content);
    assert!(matches!(combined.content, Cow::Borrowed(_)));
    assert_eq!((0, 11), (combined.start, combined.end));
}

#[test]
fn seq_recursive_works() {
    let chunker = Recursive::new(100, 50, default_delims());
    let mut chunks = vec![];
    let input = INPUT.trim();

    chunker.chunk_recursive(input, (0, input.len()), 0, (0, 0), &mut chunks);

    assert!(!chunks.is_empty());
    for chunk in chunks {
        assert!(input[chunk.0..chunk.1].len() <= 100);
    }
}

#[test]
fn chunk_recursive_works() {
    let chunker = Recursive::new(100, 50, &["\n\n", "\n", " ", ""]);
    let mut chunks = vec![];
    let input = INPUT.trim();

    let left = chunker.chunk_recursive(input, (0, input.len()), 0, (0, 0), &mut chunks);

    assert_eq!(
        vec![(0, 33), (33, 132), (132, 232), (232, 331), (331, 375)],
        chunks[..5].to_vec()
    );
    assert_eq!(10, chunks.len());
    assert_eq!(Some(input.len()), left.map(|s| s.1));
    for chunk in chunks {
        assert!(chunk.1 - chunk.0 <= 100);
    }
}

#[test]
fn seq_recursive_small_input_custom_delims() {
    let input = "Supercalifragilisticexpialadocius";
    let chunker = Recursive::new(5, 0, &["foo"]);
    let chunks = chunker.chunk(input).unwrap();
    assert!(chunks.is_empty());
}

#[test]
fn chunk_recursive_small_input_custom_delims() {
    let input = "Supercalifragilisticexpialadocius";
    let chunker = Recursive::new(5, 0, &["foo"]);
    let chunks = chunker.chunk(input).unwrap();
    assert!(chunks.is_empty());
}

#[test]
fn recursive_chunks_stay_within_size_and_two_overlaps() {
    let input = INPUT.trim();
    for (size, overlap) in [(100, 50), (40, 7), (10, 0), (64, 64), (5, 100)] {
        let chunker = Recursive::new(size, overlap, default_delims());
        let chunks = chunker.chunk(input).unwrap();
        assert!(!chunks.is_empty());
        for chunk in &chunks {
            assert!(chunk.len() <= size + 2 * overlap);
            assert!(input.is_char_boundary(chunk.start));
            assert!(input.is_char_boundary(chunk.end));
            assert!(!chunk.content.trim().is_empty());
        }
    }
    let chunks = Recursive::new(100, 50, default_delims()).chunk(input).unwrap();
    assert_eq!(11, chunks.len());
    assert_eq!(
        "What I Worked On\n\nFebruary 2021\n\nBefore college the two main things I worked on, ou",
        chunks[0].content
    );
    assert_eq!((0, 83), (chunks[0].start, chunks[0].end));
    assert_eq!(200, chunks.iter().map(|c| c.len()).max().unwrap());
}

#[test]
fn recursive_borrows_from_both_neighbours() {
    let chunks = Recursive::new(5, 2, &[" ", ""]).chunk("aa bb cc dd ee").unwrap();
    assert_eq!(vec!["aa bb", "a bb cc", "b cc dd", "c dd ee"], texts(&chunks));
    assert_eq!(vec![(0, 5), (1, 8), (4, 11), (7, 14)], spans(&chunks));
    for chunk in &chunks {
        assert!(matches!(chunk.content, Cow::Borrowed(_)));
    }

    let chunks = Recursive::new(3, 1, &[""]).chunk("abcdefghij").unwrap();
    assert_eq!(vec!["abcd", "cdefg", "fghij", "ij"], texts(&chunks));
}

#[test]
fn recursive_single_split_is_the_whole_input() {
    let input = "Hello\nWorld";
    let chunks = Recursive::new(100, 0, &["\n"]).chunk(input).unwrap();
    assert_eq!(vec![input], texts(&chunks));
    assert_eq!(vec![(0, 11)], spans(&chunks));
}

#[test]
fn recursive_drops_what_no_delimiter_makes_small_enough() {
    let input = "one two three-is-too-long four five";
    let chunker = Recursive::new(9, 3, &[" "]);
    let mut splits = vec![];
    let left = chunker.chunk_recursive(input, (0, input.len()), 0, (0, 0), &mut splits);
    assert_eq!(vec![(0, 8)], splits);
    assert_eq!(Some((26, 35)), left);

    let chunks = chunker.chunk(input).unwrap();
    assert_eq!(vec!["one two fou", "wo four five"], texts(&chunks));
    assert_eq!(vec![(0, 29), (5, 35)], spans(&chunks));
    for chunk in &chunks {
        assert!(matches!(chunk.content, Cow::Owned(_)));
    }
}

#[test]
fn recursive_without_delimiters_is_empty() {
    let none: [&str; 0] = [];
    assert!(Recursive::new(100, 10, &none).chunk("fits easily").unwrap().is_empty());
    assert!(Recursive::new(100, 10, &["\n"]).chunk("").unwrap().is_empty());
}

#[test]
fn recursive_leaves_out_white_space_chunks() {
    let chunks = Recursive::new(1, 0, &[" ", "\n"]).chunk("a  \n  b").unwrap();
    assert_eq!(vec!["b"], texts(&chunks));
    assert_eq!(vec![(6, 7)], spans(&chunks));
    let chunks = Recursive::new(4, 0, &["\n"]).chunk(" \t\n\u{a0}\n").unwrap();
    assert!(chunks.is_empty());
}

#[test]
fn recursive_keeps_code_points_whole() {
    let input = "añb€c😀dé";
    let chunks = Recursive::new(4, 2, &[""]).chunk(input).unwrap();
    assert_eq!(vec!["añb", "b€c", "c😀d", "dé"], texts(&chunks));
    assert_eq!(vec![(0, 4), (3, 8), (7, 13), (12, 15)], spans(&chunks));
}

#[test]
fn recursive_falls_back_to_finer_delimiters() {
    let input = "para one.\n\npara two is longer.\n\nx";
    let chunker = Recursive::new(12, 4, &["\n\n", " ", ""]);
    let mut splits = vec![];
    let left = chunker.chunk_recursive(input, (0, input.len()), 0, (0, 0), &mut splits);
    assert_eq!(vec![(0, 11), (11, 23)], splits);
    assert_eq!(Some((23, 33)), left);
    let chunks = chunker.chunk(input).unwrap();
    assert_eq!(
        vec!["para one.\n\npara", "e.\n\npara two is long", " is longer.\n\nx"],
        texts(&chunks)
    );
}

#[test]
fn recursive_flushes_a_buffer_that_does_not_touch() {
    let input = "aaaa bbbb";
    let chunker = Recursive::new(100, 0, &[" "]);
    let mut splits = vec![];
    let left = chunker.chunk_recursive(input, (5, 9), 0, (0, 2), &mut splits);
    assert_eq!(vec![(0, 2)], splits);
    assert_eq!(Some((5, 9)), left);

    let mut splits = vec![];
    let left = chunker.chunk_recursive(input, (5, 9), 0, (0, 5), &mut splits);
    assert!(splits.is_empty());
    assert_eq!(Some((0, 9)), left);
}

#[test]
fn recursive_builders_and_defaults() {
    let chunker = Recursive::default();
    assert_eq!(DEFAULT_SIZE, chunker.size);
    assert_eq!(DEFAULT_OVERLAP, chunker.overlap);
    assert_eq!(&["\n\n", "\n", " ", ""], chunker.delims);
    assert_eq!((1000, 500), (DEFAULT_SIZE, DEFAULT_OVERLAP));

    let chunker = Recursive::markdown();
    assert_eq!((1000, 500), (chunker.size, chunker.overlap));
    assert_eq!(
        &[
            "#", "##", "###", "####", "#####", "######", "\n```", "\n---\n", "\n___\n", "\n\n",
            "\n", " ", "",
        ],
        chunker.delims
    );
    assert_eq!(markdown_delims(), chunker.delims);

    let chunker = Recursive::new(1, 2, &["a"])
        .chunk_size(10)
        .overlap(3)
        .delimiters(&["x", "y"]);
    assert_eq!((10, 3), (chunker.size, chunker.overlap));
    assert_eq!(&["x", "y"], chunker.delims);
}

#[test]
fn chunk_slice_checks_the_range() {
    let source = "aé€";
    let chunk = Chunk::slice(source, 1, 3).unwrap();
    assert_eq!("é", chunk.content);
    assert_eq!((1, 3, 2), (chunk.start, chunk.end, chunk.len()));
    assert!(!chunk.is_empty());
    assert!(Chunk::slice(source, 6, 6).unwrap().is_empty());
    for (start, end) in [(2, 3), (1, 4), (3, 1), (0, 7), (7, 7)] {
        match Chunk::slice(source, start, end) {
            Err(ChunkerError::BoundaryViolation { start: s, end: e }) => {
                assert_eq!((start, end), (s, e))
            }
            _ => panic!("a range that splits a character or leaves the text was sliced"),
        }
    }
    let whole = Chunk::new(source);
    assert_eq!(source, whole.as_str());
    assert_eq!((0, 6), (whole.start, whole.end));
}

#[test]
fn chunker_error_messages() {
    let error = Chunk::slice("aé€", 2, 104).unwrap_err();
    assert_eq!(
        "utf-8: the bytes 2..104 do not lie between two characters",
        error.message()
    );
    assert_eq!("as given", ChunkerError::Config(String::from("as given")).message());
    let error = ledgeknaw::SlidingWindow::new(0, 18446744073709551615).unwrap_err();
    assert_eq!(
        "size (0) must be greater than overlap (18446744073709551615)",
        error.message()
    );
}

#[test]
fn decimal_string_writes_numbers() {
    for n in [0usize, 7, 10, 42, 1000, 90210, usize::MAX] {
        assert_eq!(n.to_string(), decimal_string(n));
    }
}
