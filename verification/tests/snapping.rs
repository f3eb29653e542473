use ledgeknaw::chars::{char_width, decode};
use ledgeknaw::{Chunker, SnappingSlidingWindow};

#[test]
fn char_size() {
    let ch = 'Ü';
    let mut bytes = [0, 0];
    assert_eq!(2, ch.encode_utf8(&mut bytes).len());
    assert_eq!(2, char_width(ch));
}

#[test]
fn constructor() {
    // For lifetime sanity checks
    let skip_f = vec![String::from("foo"), String::from("bar")];
    let skip_f: Vec<_> = skip_f.iter().map(|s| s.as_str()).collect();

    let skip_b = vec![String::from("foo"), String::from("bar")];
    let skip_b: Vec<_> = skip_b.iter().map(|s| s.as_str()).collect();
    let size = 1;
    let overlap = 1;
    let delimiter = '!';

    let chunker = SnappingSlidingWindow::new(size, overlap)
        .delimiter(delimiter)
        .skip_forward(&skip_f)
        .skip_back(&skip_b);

    assert_eq!(delimiter, chunker.delimiter);
    assert_eq!(size, chunker.size);
    assert_eq!(overlap, chunker.overlap);
    assert_eq!(&skip_f, chunker.skip_forward);
    assert_eq!(&skip_b, chunker.skip_back);
}

#[test]
fn ssw_works() {
    let input =
        "I have a sentence. It is not very long. Here is another. Long schlong ding dong.";
    let chunker = SnappingSlidingWindow {
        size: 1,
        overlap: 1,
        ..Default::default()
    };
    let expected = [
        "I have a sentence. It is not very long.",
        "I have a sentence. It is not very long. Here is another.",
        " It is not very long. Here is another. Long schlong ding dong.",
    ];

    let chunks = chunker.chunk(input.trim()).unwrap();
    assert_eq!(3, chunks.len());

    for (chunk, test) in chunks.into_iter().zip(expected.into_iter()) {
        assert_eq!(test, chunk.content);
    }
}

#[test]
fn ssw_skips_back() {
    let input =
        "I have a sentence. It contains letters, words, etc. This one contains more. The most important of which is foobar., because it must be skipped.";
    let chunker = SnappingSlidingWindow {
        size: 1,
        overlap: 1,
        skip_back: &["etc", "foobar"],
        ..Default::default()
    };
    let expected = [
        "I have a sentence. It contains letters, words, etc. This one contains more.",
        input,
    ];

    let chunks = chunker.chunk(input.trim()).unwrap();
    assert_eq!(2, chunks.len());

    for (chunk, test) in chunks.into_iter().zip(expected.into_iter()) {
        assert_eq!(test, chunk.content);
    }
}

#[test]
fn ssw_skips_forward() {
    let input =
        "Go to sentences.org for more words. 50% off on words with >4 syllables. Leverage agile frameworks to provide robust high level overview at agile.com.";
    let chunker = SnappingSlidingWindow {
        size: 1,
        overlap: 1,
        skip_forward: &["com", "org"],
        ..Default::default()
    };
    let expected = [
        "Go to sentences.org for more words. 50% off on words with >4 syllables.",
        input,
    ];

    let chunks = chunker.chunk(input.trim()).unwrap();
    assert_eq!(2, chunks.len());

    for (chunk, test) in chunks.into_iter().zip(expected.into_iter()) {
        assert_eq!(test, chunk.content);
    }
}

#[test]
fn ssw_skips_common_abbreviations() {
    let input =
        "Words are hard. There are many words in existence, e.g. this, that, etc..., quite a few, as you can see. My opinion, available at nobodycares.com, is that words should convey meaning. Not everyone agrees however, which is why they leverage agile frameworks to provide synopsises for high level overview, i.e. they speak nonsense.";

    let chunker = SnappingSlidingWindow {
        size: 1,
        overlap: 1,
        ..Default::default()
    };

    let expected = [
        "Words are hard. There are many words in existence, e.g. this, that, etc..., quite a few, as you can see.",
        "Words are hard. There are many words in existence, e.g. this, that, etc..., quite a few, as you can see. My opinion, available at nobodycares.com, is that words should convey meaning.",
        &input[15..],
    ];

    let chunks = chunker.chunk(input.trim()).unwrap();
    assert_eq!(3, chunks.len());

    for (chunk, test) in chunks.into_iter().zip(expected.into_iter()) {
        assert_eq!(test, chunk.content);
    }
}

#[test]
fn ssw_defaults() {
    let chunker = SnappingSlidingWindow::default();
    assert_eq!(1000, chunker.size);
    assert_eq!(5, chunker.overlap);
    assert_eq!('.', chunker.delimiter);
    assert_eq!(
        &["com", "org", "net", "g.", "e.", "sh", "rs", "js", "json"],
        chunker.skip_forward
    );
    assert_eq!(&["www", "etc", "e.g", "i.e"], chunker.skip_back);
    let chunker = SnappingSlidingWindow::new(7, 2);
    assert_eq!((7, 2, '.'), (chunker.size, chunker.overlap, chunker.delimiter));
    assert_eq!(SnappingSlidingWindow::default().skip_back, chunker.skip_back);
}

#[test]
fn ssw_empty_input_gives_no_chunk() {
    for (size, overlap) in [(0, 0), (1, 1), (1000, 5)] {
        let chunker = SnappingSlidingWindow::new(size, overlap);
        assert!(chunker.chunk("").unwrap().is_empty());
    }
}

#[test]
fn ssw_short_text_is_one_chunk() {
    let input = "short text. no more";
    let chunks = SnappingSlidingWindow::default().chunk(input).unwrap();
    assert_eq!(1, chunks.len());
    assert_eq!(input, chunks[0].content);
    assert_eq!((0, input.len()), (chunks[0].start, chunks[0].end));

    let chunks = SnappingSlidingWindow::new(1, 1).chunk("x").unwrap();
    assert_eq!(1, chunks.len());
    assert_eq!("x", chunks[0].content);
}

#[test]
fn ssw_without_overlap_tiles_the_text() {
    let input = "One. Two. Three. Four. Five. Six.";
    let chunks = SnappingSlidingWindow::new(8, 0).chunk(input).unwrap();
    let spans: Vec<(usize, usize)> = chunks.iter().map(|c| (c.start, c.end)).collect();
    assert_eq!(vec![(0, 9), (9, 22), (22, 33)], spans);
    let texts: Vec<&str> = chunks.iter().map(|c| c.as_str()).collect();
    assert_eq!(vec!["One. Two.", " Three. Four.", " Five. Six."], texts);
}

#[test]
fn ssw_last_chunk_reaches_the_end() {
    let input = "One. Two. Three. Four. Five. Six";
    let chunks = SnappingSlidingWindow::new(8, 1).chunk(input).unwrap();
    let spans: Vec<(usize, usize)> = chunks.iter().map(|c| (c.start, c.end)).collect();
    assert_eq!(vec![(0, 16), (4, 28), (16, 32)], spans);
}

#[test]
fn ssw_reports_byte_offsets_of_characters() {
    let input = "Größe zählt. Übung macht den Meister. Ende gut, alles gut.";
    let chunks = SnappingSlidingWindow::new(1, 0).chunk(input).unwrap();
    let texts: Vec<&str> = chunks.iter().map(|c| c.as_str()).collect();
    assert_eq!(
        vec!["Größe zählt.", " Übung macht den Meister.", " Ende gut, alles gut."],
        texts
    );
    for chunk in &chunks {
        assert_eq!(&input[chunk.start..chunk.end], chunk.content);
    }
    assert_eq!((0, 15), (chunks[0].start, chunks[0].end));
}

#[test]
fn ssw_takes_any_delimiter() {
    let input = "一。二。三。";
    let chunks = SnappingSlidingWindow::new(1, 0)
        .delimiter('。')
        .chunk(input)
        .unwrap();
    let texts: Vec<&str> = chunks.iter().map(|c| c.as_str()).collect();
    assert_eq!(vec!["一。", "二。", "三。"], texts);
}

#[test]
fn ssw_spans_count_characters() {
    let text: Vec<char> = "Größe zählt. Übung macht den Meister.".chars().collect();
    let spans = SnappingSlidingWindow::new(1, 0).spans(&text);
    assert_eq!(vec![(0, 12), (12, 37)], spans);
}

#[test]
fn decode_gives_characters_and_offsets() {
    let (chars, offsets) = decode("aß€😀");
    assert_eq!(vec!['a', 'ß', '€', '😀'], chars);
    assert_eq!(vec![0, 1, 3, 6, 10], offsets);
    let (chars, offsets) = decode("");
    assert!(chars.is_empty());
    assert_eq!(vec![0], offsets);
}

fn ranges(chunker: &SnappingSlidingWindow, input: &str) -> Vec<(usize, usize)> {
    chunker
        .chunk(input)
        .unwrap()
        .iter()
        .map(|c| (c.start, c.end))
        .collect()
}

#[test]
fn ssw_reaches_several_sentences() {
    let input = "A. B. C. D. E. F. G.";
    let chunker = SnappingSlidingWindow::new(1, 3);
    assert_eq!(
        vec![(0, 11), (0, 14), (0, 17), (0, 20)],
        ranges(&chunker, input)
    );
    let chunker = SnappingSlidingWindow::new(4, 0);
    assert_eq!(
        vec![(0, 5), (5, 11), (11, 17), (17, 20)],
        ranges(&chunker, input)
    );
}

#[test]
fn ssw_text_without_stops_is_one_chunk() {
    let chunker = SnappingSlidingWindow::new(3, 2);
    assert_eq!(vec![(0, 15)], ranges(&chunker, "no stops at all"));
    assert_eq!(vec![(0, 2)], ranges(&SnappingSlidingWindow::new(1, 1), ".."));
    assert_eq!(
        vec![(0, 29), (0, 37)],
        ranges(
            &SnappingSlidingWindow::new(1, 1),
            "Wait for it... Here it comes. Done..."
        )
    );
    assert_eq!(
        vec![(0, 7), (7, 20), (20, 24)],
        ranges(
            &SnappingSlidingWindow::new(1, 0).skip_forward(&[]).skip_back(&[]),
            "Wait... What? Yes... No."
        )
    );
}

#[test]
fn ssw_skipped_stop_at_the_end_closes_the_last_chunk() {
    let chunker = SnappingSlidingWindow::new(1, 1);
    assert_eq!(vec![(0, 23)], ranges(&chunker, "Ends with etc. Yes etc."));
    assert_eq!(
        vec![(0, 18), (0, 29)],
        ranges(&chunker, "she said. he said. they said.")
    );
    assert_eq!(
        vec![(0, 3), (0, 5)],
        ranges(&SnappingSlidingWindow::new(0, 1), ". . .")
    );
}

#[test]
fn ssw_keeps_addresses_and_abbreviations_whole() {
    let input = "Visit www.example.com today. Or e.g. tomorrow. Fine.";
    let chunks = SnappingSlidingWindow::new(10, 1).chunk(input).unwrap();
    let texts: Vec<&str> = chunks.iter().map(|c| c.as_str()).collect();
    assert_eq!(
        vec!["Visit www.example.com today. Or e.g. tomorrow.", input],
        texts
    );
}

#[test]
fn ssw_sees_an_address_at_the_end_of_the_text() {
    let chunker = SnappingSlidingWindow::new(1, 0).skip_forward(&["com"]).skip_back(&[]);
    let chunks = chunker.chunk("Go to agile.com").unwrap();
    assert_eq!(1, chunks.len());
    assert_eq!("Go to agile.com", chunks[0].content);
    let chunks = SnappingSlidingWindow::new(1, 1).chunk("Read more at agile.com").unwrap();
    assert_eq!(1, chunks.len());
    assert_eq!("Read more at agile.com", chunks[0].content);
}

#[test]
fn ssw_pattern_with_a_delimiter_inside_hides_a_stop_from_the_walk_back() {
    let chunker = SnappingSlidingWindow::new(0, 1)
        .skip_forward(&[])
        .skip_back(&["a.a", "b.", "b.a"]);
    assert_eq!(
        vec![(0, 3), (0, 9), (1, 12), (0, 18)],
        ranges(&chunker, ".a.a..a..aa.aaaa..")
    );
    let chunker = SnappingSlidingWindow::new(0, 1).skip_forward(&["b."]).skip_back(&[]);
    assert_eq!(
        vec![(0, 15), (0, 17), (12, 19)],
        ranges(&chunker, "bb aaaa .b.. b. .  ")
    );
}

#[test]
fn ssw_chunks_begin_and_end_at_stops_that_no_pattern_skips() {
    let forward = ["com", "org", "g.", "e."];
    let back = ["www", "etc", "e.g", "i.e"];
    let inputs = [
        "Go to agile.com",
        "See www.example.org now. Or e.g. later, etc... Fine. Done",
        "One. Two etc. Three... Four i.e. five. Six.com. Seven.",
        "a.com.org. b etc.. c. d.e.g. www.",
    ];
    for input in inputs {
        for (size, overlap) in [(0, 0), (1, 0), (1, 1), (5, 2), (12, 1), (1000, 5)] {
            let chunker = SnappingSlidingWindow::new(size, overlap)
                .skip_forward(&forward)
                .skip_back(&back);
            let chunks = chunker.chunk(input).unwrap();
            for pair in chunks.windows(2) {
                assert!(pair[0].end <= pair[1].end);
            }
            for chunk in &chunks {
                for at in [chunk.start, chunk.end] {
                    if at == 0 || at == input.len() {
                        continue;
                    }
                    let before = input[..at].trim_end_matches('.');
                    assert!(before.len() < at);
                    assert!(!input[at..].starts_with('.'));
                    assert!(back.iter().all(|pattern| !before.ends_with(pattern)));
                    assert!(forward.iter().all(|pattern| !input[at..].starts_with(pattern)));
                }
            }
        }
    }
}

#[test]
fn ssw_chunks_cover_the_text() {
    let input = "One. Two! Three... Four. Five etc. Six. Seven";
    for (size, overlap) in [(0, 0), (1, 0), (1, 1), (6, 2), (20, 1), (1000, 5)] {
        let chunks = SnappingSlidingWindow::new(size, overlap).chunk(input).unwrap();
        assert!(!chunks.is_empty());
        assert_eq!(0, chunks[0].start);
        assert_eq!(input.len(), chunks[chunks.len() - 1].end);
        for at in 0..input.len() {
            assert!(chunks.iter().any(|c| c.start <= at && at < c.end));
        }
    }
}
