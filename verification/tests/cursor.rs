use ledgeknaw::{Cursor, CursorRev};

fn chars(s: &str) -> Vec<char> {
    s.chars().collect()
}

#[test]
fn cursor_advances_to_delimiter() {
    let input = "This is such a sentence. One of the sentences in the world. Super wow.";
    let text = chars(input);
    let mut cursor = Cursor::new(&text, '.');
    let expected = [
        "This is such a sentence.",
        "This is such a sentence. One of the sentences in the world.",
        input,
    ];
    assert!(cursor.get_slice().is_empty());
    for test in expected {
        cursor.advance();
        assert_eq!(chars(test), cursor.get_slice());
    }
}

#[test]
fn cursor_advances_past_repeating_delimiters() {
    let input = "This is such a sentence... One of the sentences in the world. Super wow.";
    let text = chars(input);
    let mut cursor = Cursor::new(&text, '.');
    let expected = [
        "This is such a sentence...",
        "This is such a sentence... One of the sentences in the world.",
        input,
    ];
    for test in expected {
        cursor.advance();
        assert_eq!(chars(test), cursor.get_slice());
    }
}

#[test]
fn cursor_advances_exact() {
    let input = "This is Sparta my friend";
    let text = chars(input);
    let mut cursor = Cursor::new(&text, '.');
    let expected = input.split_inclusive(' ');
    let mut buf = String::new();
    for test in expected {
        assert_eq!(chars(&buf), cursor.get_slice());
        cursor.advance_exact(test.len());
        buf.push_str(test);
    }
}

#[test]
fn cursor_peek_forward() {
    let input = "This. Is. Sentence. etc.";
    let text = chars(input);
    let mut cursor = Cursor::new(&text, '.');
    let expected = ["This", " Is", " Sentence", " etc"];
    for test in expected {
        assert!(cursor.peek_forward(test));
        cursor.advance();
    }
    assert!(!cursor.peek_forward("etc"));
}

#[test]
fn cursor_peek_back() {
    let input = "This. Is. Sentence. etc.";
    let text = chars(input);
    let mut cursor = Cursor::new(&text, '.');
    let expected = ["This", " Is", " Sentence", " etc"];
    assert!(!cursor.peek_back("This"));
    for test in expected {
        cursor.advance();
        assert!(cursor.peek_back(test));
    }
    assert!(cursor.peek_back("etc"));
}

#[test]
fn rev_cursor_advances_to_delimiter() {
    let input = "This is such a sentence. One of the sentences in the world. Super wow.";
    let text = chars(input);
    let mut cursor = CursorRev::new(&text, '.');
    let expected = [
        " Super wow.",
        " One of the sentences in the world. Super wow.",
        input,
    ];
    for test in expected {
        cursor.advance();
        assert_eq!(chars(test), cursor.get_slice());
    }
}

#[test]
fn rev_cursor_advances_past_repeating_delimiters() {
    let input =
        "This is such a sentence..... Very sentencey. So many.......... words. One of the sentences in the world... Super wow.";
    let text = chars(input);
    let mut cursor = CursorRev::new(&text, '.');
    let expected = [
        " Super wow.",
        " One of the sentences in the world... Super wow.",
        " words. One of the sentences in the world... Super wow.",
        " So many.......... words. One of the sentences in the world... Super wow.",
        " Very sentencey. So many.......... words. One of the sentences in the world... Super wow.",
        input,
    ];
    for test in expected {
        cursor.advance();
        assert_eq!(chars(test), cursor.get_slice());
    }
}

#[test]
fn rev_cursor_advances_exact() {
    let input = "This is Sparta my friend";
    let text = chars(input);
    let mut cursor = CursorRev::new(&text, '.');
    let mut buf = String::new();
    let expected = input.split_inclusive(' ');
    for test in expected.into_iter().rev() {
        assert_eq!(chars(&buf), cursor.get_slice());
        cursor.advance_exact(test.len());
        buf.insert_str(0, test);
    }
}

#[test]
fn rev_cursor_peek_forward() {
    let input = "This. Is. Sentence. etc.";
    let text = chars(input);
    let mut cursor = CursorRev::new(&text, '.');
    let expected = ["This", " Is", " Sentence", " etc"];
    for test in expected.into_iter().rev() {
        cursor.advance();
        assert!(cursor.peek_forward(test));
    }
    assert!(cursor.peek_forward("This"));
}

#[test]
fn rev_cursor_peek_back() {
    let input = "This. Is. Sentence. etc.";
    let text = chars(input);
    let mut cursor = CursorRev::new(&text, '.');
    let expected = ["This", " Is", " Sentence", " etc"];
    assert!(cursor.peek_back("etc"));
    for test in expected.into_iter().rev() {
        assert!(cursor.peek_back(test));
        cursor.advance();
    }
    assert!(!cursor.peek_back("etc"));
}

#[test]
fn cursor_positions_step_by_step() {
    let text = chars("Ab. Cd... Ef. G");
    let mut cursor = Cursor::new(&text, '.');
    assert_eq!(0, cursor.pos());
    cursor.advance();
    assert_eq!(3, cursor.pos());
    cursor.advance();
    assert_eq!(9, cursor.pos());
    cursor.advance();
    assert_eq!(13, cursor.pos());
    cursor.advance();
    assert_eq!(15, cursor.pos());
    cursor.advance();
    assert_eq!(15, cursor.pos());
    assert_eq!(text.as_slice(), cursor.get_slice());
}

#[test]
fn cursor_on_empty_text_stays() {
    let text: Vec<char> = Vec::new();
    let mut cursor = Cursor::new(&text, '.');
    cursor.advance();
    cursor.advance_exact(3);
    assert_eq!(0, cursor.pos());
    assert!(cursor.get_slice().is_empty());
    assert!(!cursor.peek_back("a"));
    assert!(!cursor.peek_back(""));
    assert!(!cursor.peek_forward("a"));
    assert!(cursor.peek_forward(""));
    let mut back = CursorRev::new(&text, '.');
    back.advance();
    assert!(back.advance_exact(2));
    assert_eq!(0, back.pos());
    assert!(back.get_slice().is_empty());
}

#[test]
fn cursor_run_at_the_end_is_one_stop() {
    let text = chars("Wait for it...");
    let mut cursor = Cursor::new(&text, '.');
    cursor.advance();
    assert_eq!(14, cursor.pos());
    assert_eq!(text.as_slice(), cursor.get_slice());
}

#[test]
fn cursor_advance_exact_stops_at_the_end() {
    let text = chars("abcdef");
    let mut cursor = Cursor::new(&text, '.');
    cursor.advance_exact(2);
    assert_eq!(2, cursor.pos());
    cursor.advance_exact(3);
    assert_eq!(5, cursor.pos());
    cursor.advance_exact(usize::MAX);
    assert_eq!(6, cursor.pos());
    assert_eq!(3, Cursor::at(&text, '.', 3).pos());
    assert_eq!(6, Cursor::at(&text, '.', 7).pos());
    assert_eq!(6, CursorRev::at(&text, '.', 7).pos());
    assert_eq!(chars("ef"), CursorRev::at(&text, '.', 4).get_slice());
}

#[test]
fn cursor_sees_a_pattern_that_ends_with_the_text() {
    let text = chars("Go to agile.com");
    let mut cursor = Cursor::new(&text, '.');
    cursor.advance();
    assert_eq!(12, cursor.pos());
    assert!(cursor.peek_forward("com"));
    assert!(!cursor.peek_forward("come"));
    assert!(cursor.advance_if_peek(&["com"], &[]));
    assert_eq!(15, cursor.pos());

    let mut back = CursorRev::new(&text, '.');
    back.advance();
    assert_eq!(12, back.pos());
    assert!(back.peek_forward("com"));
    assert!(back.advance_if_peek(&["com"], &[]));
    back.advance();
    assert_eq!(0, back.pos());
    assert!(back.peek_forward("Go to agile.com"));
}

#[test]
fn cursor_checks_patterns_before_the_whole_run() {
    let text = chars("this, that, etc..., and more");
    let mut cursor = Cursor::new(&text, '.');
    cursor.advance();
    assert_eq!(18, cursor.pos());
    assert!(cursor.peek_back("etc"));
    assert!(!cursor.peek_back("etc.."));
    assert!(!cursor.peek_back(".."));
    assert!(cursor.peek_forward(","));
    cursor.advance_exact(1);
    assert!(!cursor.peek_back("etc"));
}

#[test]
fn cursor_skips_patterns_around_a_stop() {
    let text = chars("See e.g. this, etc. And that.");
    let forward = ["g."];
    let back = ["etc"];
    let mut cursor = Cursor::new(&text, '.');
    cursor.advance();
    assert_eq!(6, cursor.pos());
    assert!(cursor.advance_if_peek(&forward, &back));
    assert_eq!(8, cursor.pos());
    cursor.advance();
    assert_eq!(19, cursor.pos());
    assert!(cursor.advance_if_peek(&forward, &back));
    assert_eq!(19, cursor.pos());
    cursor.advance();
    assert_eq!(29, cursor.pos());
    assert!(!cursor.advance_if_peek(&forward, &back));

    let mut cursor = Cursor::new(&text, '.');
    cursor.advance_to_stop(&forward, &back);
    assert_eq!(29, cursor.pos());
}

#[test]
fn rev_cursor_skips_patterns_around_a_stop() {
    let text = chars("One. Two etc. Three.");
    let forward: [&str; 0] = [];
    let back = ["etc"];
    let mut cursor = CursorRev::new(&text, '.');
    assert_eq!(20, cursor.pos());
    cursor.advance();
    assert_eq!(13, cursor.pos());
    assert!(cursor.advance_if_peek(&forward, &back));
    assert_eq!(9, cursor.pos());
    cursor.advance();
    assert_eq!(4, cursor.pos());
    assert!(!cursor.advance_if_peek(&forward, &back));
    assert_eq!(chars(" Two etc. Three."), cursor.get_slice());

    let mut cursor = CursorRev::new(&text, '.');
    cursor.advance_to_stop(&forward, &back);
    assert_eq!(4, cursor.pos());
    cursor.advance_to_stop(&forward, &back);
    assert_eq!(0, cursor.pos());
}

#[test]
fn cursor_walks_characters_not_bytes() {
    let text = chars("Grüße. Çà va? Ça va. Fin");
    let mut cursor = Cursor::new(&text, '.');
    cursor.advance();
    assert_eq!(chars("Grüße."), cursor.get_slice());
    assert!(cursor.peek_back("Grüße"));
    assert!(cursor.peek_forward(" Çà"));
    cursor.advance();
    assert_eq!(chars("Grüße. Çà va? Ça va."), cursor.get_slice());
    let mut back = CursorRev::new(&text, '.');
    back.advance();
    assert_eq!(chars(" Fin"), back.get_slice());
    assert!(back.peek_back("Ça va"));
}
