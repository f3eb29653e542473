//! Cursors that walk a text from one sentence stop to the next, forward
//! and backward.
//!
//! A text is a sequence of characters and every position is a character
//! index, so that no position can fall inside a character. A *stop* is a
//! position right behind a delimiter that no delimiter follows: a run of
//! delimiters, such as an ellipsis, is one stop, and the stop is behind the
//! whole run.
use vstd::prelude::*;
use vstd::slice::slice_subrange;
use vstd::std_specs::iter::IteratorSpec;
use vstd::string::StrSliceExecFns;

verus! {

/// Where a cursor stands: the text it walks, its position in it and the
/// delimiter it looks for.
pub struct Scan {
    pub text: Seq<char>,
    pub pos: int,
    pub delim: char,
}

/// The characters of each pattern of a list.
pub open spec fn pattern_chars(patterns: Seq<&str>) -> Seq<Seq<char>> {
    Seq::new(patterns.len(), |i: int| patterns[i]@)
}

/// The pattern stands in the text at `at`.
pub open spec fn stands_at(text: Seq<char>, at: int, pattern: Seq<char>) -> bool {
    &&& 0 <= at
    &&& at + pattern.len() <= text.len()
    &&& text.subrange(at, at + pattern.len()) == pattern
}

/// `p` is a stop: a delimiter stands right before it and none at it.
pub open spec fn is_stop(text: Seq<char>, delim: char, p: int) -> bool {
    &&& 0 < p <= text.len()
    &&& text[p - 1] == delim
    &&& p == text.len() || text[p] != delim
}

/// The first stop behind `p`, or the end of the text if there is none.
pub open spec fn stop_after(text: Seq<char>, delim: char, p: int) -> int
    decreases text.len() - p,
{
    if p >= text.len() {
        text.len() as int
    } else if is_stop(text, delim, p + 1) {
        p + 1
    } else {
        stop_after(text, delim, p + 1)
    }
}

/// The last stop before `p`, or the start of the text if there is none.
pub open spec fn stop_before(text: Seq<char>, delim: char, p: int) -> int
    decreases p,
{
    if p <= 0 {
        0
    } else if is_stop(text, delim, p - 1) {
        p - 1
    } else {
        stop_before(text, delim, p - 1)
    }
}

/// `stop_after` gives the nearest stop behind `p`: it lies behind `p`, it
/// is a stop unless it is the end of the text, and no stop lies between.
pub proof fn lemma_stop_after(text: Seq<char>, delim: char, p: int)
    requires
        0 <= p <= text.len(),
    ensures
        ({
            let r = stop_after(text, delim, p);
            &&& p <= r <= text.len()
            &&& p < text.len() ==> p < r
            &&& r == text.len() || is_stop(text, delim, r)
            &&& forall|q: int| p < q < r ==> !is_stop(text, delim, q)
        }),
    decreases text.len() - p,
{
    if p < text.len() && !is_stop(text, delim, p + 1) {
        lemma_stop_after(text, delim, p + 1);
    }
}

/// `stop_before` gives the nearest stop before `p`: it lies before `p`, it
/// is a stop unless it is the start of the text, and no stop lies between.
pub proof fn lemma_stop_before(text: Seq<char>, delim: char, p: int)
    requires
        0 <= p <= text.len(),
    ensures
        ({
            let r = stop_before(text, delim, p);
            &&& 0 <= r <= p
            &&& 0 < p ==> r < p
            &&& r == 0 || is_stop(text, delim, r)
            &&& forall|q: int| r < q < p ==> !is_stop(text, delim, q)
        }),
    decreases p,
{
    if p > 0 && !is_stop(text, delim, p - 1) {
        lemma_stop_before(text, delim, p - 1);
    }
}

/// The start of the run of delimiters that ends at `p`; `p` itself if no
/// delimiter stands right before it.
pub open spec fn run_start(text: Seq<char>, delim: char, p: int) -> int
    decreases p,
{
    if 0 < p <= text.len() && text[p - 1] == delim {
        run_start(text, delim, p - 1)
    } else {
        p
    }
}

/// A run starts within the text, at its end or before.
pub proof fn lemma_run_start(text: Seq<char>, delim: char, p: int)
    ensures
        run_start(text, delim, p) <= p,
        0 <= p ==> 0 <= run_start(text, delim, p),
    decreases p,
{
    if 0 < p <= text.len() && text[p - 1] == delim {
        lemma_run_start(text, delim, p - 1);
    }
}

/// The pattern stands right before the run of delimiters that ends at
/// `pos`.
pub open spec fn peek_back_at(text: Seq<char>, delim: char, pos: int, pattern: Seq<char>) -> bool {
    let start = run_start(text, delim, pos);
    start < pos && stands_at(text, start - pattern.len(), pattern)
}

/// The pattern stands right at `pos`.
pub open spec fn peek_forward_at(text: Seq<char>, pos: int, pattern: Seq<char>) -> bool {
    stands_at(text, pos, pattern)
}

/// The index, from `i` on, of the first entry that is true, or the length of
/// the list if there is none.
pub open spec fn first_hit(hits: Seq<bool>, i: int) -> int
    decreases hits.len() - i,
{
    if i < 0 || i >= hits.len() {
        hits.len() as int
    } else if hits[i] {
        i
    } else {
        first_hit(hits, i + 1)
    }
}

/// The first true entry is the first: it lies within the list and no entry
/// before it is true.
pub proof fn lemma_first_hit(hits: Seq<bool>, i: int)
    requires
        0 <= i,
    ensures
        first_hit(hits, i) <= hits.len(),
        first_hit(hits, i) < hits.len() ==> i <= first_hit(hits, i) && hits[first_hit(hits, i)],
        forall|j: int| i <= j < first_hit(hits, i) ==> !hits[j],
    decreases hits.len() - i,
{
    if i < hits.len() && !hits[i] {
        lemma_first_hit(hits, i + 1);
    }
}

/// For each pattern, whether it stands right before the run of delimiters
/// that ends at `pos`.
pub open spec fn back_hits(
    text: Seq<char>,
    delim: char,
    pos: int,
    patterns: Seq<Seq<char>>,
) -> Seq<bool> {
    Seq::new(patterns.len(), |j: int| peek_back_at(text, delim, pos, patterns[j]))
}

/// For each pattern, whether it stands right at `pos`.
pub open spec fn forward_hits(text: Seq<char>, pos: int, patterns: Seq<Seq<char>>) -> Seq<bool> {
    Seq::new(patterns.len(), |j: int| peek_forward_at(text, pos, patterns[j]))
}

/// The stop at `pos` ends no sentence: a pattern of `back` stands right
/// before its delimiters, or a pattern of `forward` right behind them.
pub open spec fn skipped(
    text: Seq<char>,
    delim: char,
    pos: int,
    forward: Seq<Seq<char>>,
    back: Seq<Seq<char>>,
) -> bool {
    ||| first_hit(back_hits(text, delim, pos, back), 0) < back.len()
    ||| first_hit(forward_hits(text, pos, forward), 0) < forward.len()
}

/// `pos` is a stop that ends a sentence: a stop that no pattern skips.
pub open spec fn real_stop(
    text: Seq<char>,
    delim: char,
    pos: int,
    forward: Seq<Seq<char>>,
    back: Seq<Seq<char>>,
) -> bool {
    is_stop(text, delim, pos) && !skipped(text, delim, pos, forward, back)
}

/// A stop that ends a sentence has none of the patterns around it.
pub proof fn lemma_real_stop(
    text: Seq<char>,
    delim: char,
    pos: int,
    forward: Seq<Seq<char>>,
    back: Seq<Seq<char>>,
)
    requires
        real_stop(text, delim, pos, forward, back),
    ensures
        text[pos - 1] == delim,
        forall|j: int| 0 <= j < back.len() ==> !peek_back_at(text, delim, pos, #[trigger] back[j]),
        forall|j: int| 0 <= j < forward.len() ==> !stands_at(text, pos, #[trigger] forward[j]),
{
    lemma_first_hit(back_hits(text, delim, pos, back), 0);
    lemma_first_hit(forward_hits(text, pos, forward), 0);
    assert forall|j: int| 0 <= j < back.len() implies !peek_back_at(
        text,
        delim,
        pos,
        #[trigger] back[j],
    ) by {
        assert(!back_hits(text, delim, pos, back)[j]);
    }
    assert forall|j: int| 0 <= j < forward.len() implies !stands_at(
        text,
        pos,
        #[trigger] forward[j],
    ) by {
        assert(!forward_hits(text, pos, forward)[j]);
    }
}

/// What `advance_if_peek` makes of a forward cursor at `pos`: whether the
/// stop is skipped, and where the cursor stands afterwards. A pattern
/// before the delimiters leaves the cursor; a pattern behind them takes the
/// cursor past the pattern.
pub open spec fn skip_forward_step(
    text: Seq<char>,
    delim: char,
    pos: int,
    forward: Seq<Seq<char>>,
    back: Seq<Seq<char>>,
) -> (bool, int) {
    let f = first_hit(forward_hits(text, pos, forward), 0);
    if first_hit(back_hits(text, delim, pos, back), 0) < back.len() {
        (true, pos)
    } else if f < forward.len() {
        (true, pos + forward[f].len())
    } else {
        (false, pos)
    }
}

/// What `advance_if_peek` makes of a backward cursor at `pos`: whether the
/// stop is skipped, and where the cursor stands afterwards. A pattern
/// before the delimiters takes the cursor to the start of the pattern; a
/// pattern behind them leaves the cursor.
pub open spec fn skip_backward_step(
    text: Seq<char>,
    delim: char,
    pos: int,
    forward: Seq<Seq<char>>,
    back: Seq<Seq<char>>,
) -> (bool, int) {
    let b = first_hit(back_hits(text, delim, pos, back), 0);
    if b < back.len() {
        (true, run_start(text, delim, pos) - back[b].len())
    } else if first_hit(forward_hits(text, pos, forward), 0) < forward.len() {
        (true, pos)
    } else {
        (false, pos)
    }
}

/// Where a forward cursor at `pos` comes to rest when it walks to the next
/// stop that ends a sentence: it advances, and advances again as long as
/// the stop is skipped and the cursor has moved.
pub open spec fn next_stop(
    text: Seq<char>,
    delim: char,
    forward: Seq<Seq<char>>,
    back: Seq<Seq<char>>,
    pos: int,
) -> int
    decreases text.len() - pos,
{
    let step = skip_forward_step(text, delim, stop_after(text, delim, pos), forward, back);
    if step.0 && pos < step.1 <= text.len() {
        next_stop(text, delim, forward, back, step.1)
    } else {
        step.1
    }
}

/// Where a backward cursor at `pos` comes to rest when it walks to the
/// next stop that ends a sentence: it advances, and advances again as long
/// as the stop is skipped and the cursor has moved.
pub open spec fn prev_stop(
    text: Seq<char>,
    delim: char,
    forward: Seq<Seq<char>>,
    back: Seq<Seq<char>>,
    pos: int,
) -> int
    decreases pos,
{
    let step = skip_backward_step(text, delim, stop_before(text, delim, pos), forward, back);
    if step.0 && 0 <= step.1 < pos {
        prev_stop(text, delim, forward, back, step.1)
    } else {
        step.1
    }
}

/// A position at which a chunk may begin or end: the start of the text,
/// its end, or a stop that ends a sentence.
pub open spec fn sentence_bound(
    text: Seq<char>,
    delim: char,
    pos: int,
    forward: Seq<Seq<char>>,
    back: Seq<Seq<char>>,
) -> bool {
    pos == 0 || pos == text.len() || real_stop(text, delim, pos, forward, back)
}

/// The walk to the next stop moves on and ends at a sentence bound: at a
/// stop that no pattern skips, or at the end of the text.
pub proof fn lemma_next_stop(
    text: Seq<char>,
    delim: char,
    forward: Seq<Seq<char>>,
    back: Seq<Seq<char>>,
    pos: int,
)
    requires
        0 <= pos <= text.len(),
    ensures
        ({
            let r = next_stop(text, delim, forward, back, pos);
            &&& pos <= r <= text.len()
            &&& pos < text.len() ==> pos < r
            &&& r == text.len() || real_stop(text, delim, r, forward, back)
        }),
    decreases text.len() - pos,
{
    let s = stop_after(text, delim, pos);
    lemma_stop_after(text, delim, pos);
    lemma_first_hit(forward_hits(text, s, forward), 0);
    let step = skip_forward_step(text, delim, s, forward, back);
    if step.0 && pos < step.1 <= text.len() {
        lemma_next_stop(text, delim, forward, back, step.1);
    }
}

/// The walk to the stop before moves back and ends at a sentence bound: at
/// a stop that no pattern skips, or at the start of the text.
pub proof fn lemma_prev_stop(
    text: Seq<char>,
    delim: char,
    forward: Seq<Seq<char>>,
    back: Seq<Seq<char>>,
    pos: int,
)
    requires
        0 <= pos <= text.len(),
    ensures
        ({
            let r = prev_stop(text, delim, forward, back, pos);
            &&& 0 <= r <= pos
            &&& 0 < pos ==> r < pos
            &&& r == 0 || real_stop(text, delim, r, forward, back)
        }),
    decreases pos,
{
    let s = stop_before(text, delim, pos);
    lemma_stop_before(text, delim, pos);
    lemma_run_start(text, delim, s);
    lemma_first_hit(back_hits(text, delim, s, back), 0);
    let step = skip_backward_step(text, delim, s, forward, back);
    if step.0 && 0 <= step.1 < pos {
        lemma_prev_stop(text, delim, forward, back, step.1);
    }
}

/// Tells whether `pattern` stands in `text` at `at`.
pub fn text_stands_at(text: &[char], at: usize, pattern: &str) -> (r: bool)
    ensures
        r == stands_at(text@, at as int, pattern@),
{
    let k = pattern.unicode_len();
    let n = text.len();
    if k > n || at > n - k {
        return false;
    }
    let mut same = true;
    let mut j: usize = 0;
    for c in it: pattern.chars()
        invariant
            it.seq() == pattern@,
            j == it.index(),
            k == pattern@.len(),
            at + k <= n,
            n == text@.len(),
            same <==> (forall|m: int| 0 <= m < j ==> text@[at + m] == pattern@[m]),
    {
        if text[at + j] != c {
            same = false;
        }
        j = j + 1;
    }
    proof {
        let part = text@.subrange(at as int, at + k);
        if same {
            assert(part =~= pattern@);
        } else {
            let m = choose|m: int| 0 <= m < j && text@[at + m] != pattern@[m];
            assert(part[m] == text@[at + m]);
        }
    }
    same
}

/// Tells whether `p` is a stop of `text`.
pub fn text_is_stop(text: &[char], delim: char, p: usize) -> (r: bool)
    ensures
        r == is_stop(text@, delim, p as int),
{
    let n = text.len();
    0 < p && p <= n && text[p - 1] == delim && (p == n || text[p] != delim)
}

/// The start of the run of delimiters that ends at `p`.
pub fn text_run_start(text: &[char], delim: char, p: usize) -> (r: usize)
    requires
        p <= text@.len(),
    ensures
        r == run_start(text@, delim, p as int),
        r <= p,
{
    let mut r: usize = p;
    while r > 0 && text[r - 1] == delim
        invariant
            r <= p <= text@.len(),
            run_start(text@, delim, r as int) == run_start(text@, delim, p as int),
        decreases r,
    {
        r = r - 1;
    }
    r
}

/// Tells whether `pattern` stands right before the run of delimiters that
/// ends at `pos`.
pub fn text_peek_back(text: &[char], delim: char, pos: usize, pattern: &str) -> (r: bool)
    requires
        pos <= text@.len(),
    ensures
        r == peek_back_at(text@, delim, pos as int, pattern@),
{
    let start = text_run_start(text, delim, pos);
    let k = pattern.unicode_len();
    if start == pos || start < k {
        return false;
    }
    text_stands_at(text, start - k, pattern)
}

/// A cursor that walks a text forward, from stop to stop.
#[derive(Debug)]
pub struct Cursor<'a> {
    buf: &'a [char],
    pos: usize,
    delim: char,
}

impl<'a> View for Cursor<'a> {
    type V = Scan;

    closed spec fn view(&self) -> Scan {
        Scan { text: self.buf@, pos: self.pos as int, delim: self.delim }
    }
}

impl<'a> Cursor<'a> {
    #[verifier::type_invariant]
    spec fn within_text(self) -> bool {
        self.pos <= self.buf@.len()
    }

    /// A cursor at the start of `input`.
    pub fn new(input: &'a [char], delim: char) -> (c: Self)
        ensures
            c@ == (Scan { text: input@, pos: 0, delim }),
    {
        Self { buf: input, pos: 0, delim }
    }

    /// A cursor at position `pos` of `input`, or at its end if `pos` lies
    /// behind it.
    pub fn at(input: &'a [char], delim: char, pos: usize) -> (c: Self)
        ensures
            c@ == (Scan {
                text: input@,
                pos: if pos <= input@.len() {
                    pos as int
                } else {
                    input@.len() as int
                },
                delim,
            }),
    {
        let n = input.len();
        Self {
            buf: input,
            pos: if pos <= n {
                pos
            } else {
                n
            },
            delim,
        }
    }

    /// The position of the cursor, which never lies behind the end of the
    /// text.
    pub fn pos(&self) -> (p: usize)
        ensures
            p == self@.pos,
            p <= self@.text.len(),
    {
        proof {
            use_type_invariant(self);
        }
        self.pos
    }

    /// The text up to the cursor.
    pub fn get_slice(&self) -> (s: &'a [char])
        ensures
            s@ == self@.text.subrange(0, self@.pos),
    {
        proof {
            use_type_invariant(self);
        }
        slice_subrange(self.buf, 0, self.pos)
    }

    /// Moves the cursor to the next stop: right behind the next delimiter
    /// that no delimiter follows, or to the end of the text if there is
    /// none. No stop lies between the old position and the new.
    pub fn advance(&mut self)
        ensures
            final(self)@ == (Scan {
                pos: stop_after(old(self)@.text, old(self)@.delim, old(self)@.pos),
                ..old(self)@
            }),
            old(self)@.pos <= final(self)@.pos <= old(self)@.text.len(),
            old(self)@.pos < old(self)@.text.len() ==> old(self)@.pos < final(self)@.pos,
            final(self)@.pos == old(self)@.text.len() || is_stop(
                old(self)@.text,
                old(self)@.delim,
                final(self)@.pos,
            ),
            forall|q: int|
                old(self)@.pos < q < final(self)@.pos ==> !is_stop(
                    old(self)@.text,
                    old(self)@.delim,
                    q,
                ),
    {
        proof {
            use_type_invariant(&*self);
            lemma_stop_after(self.buf@, self.delim, self.pos as int);
        }
        let n = self.buf.len();
        let ghost text = self.buf@;
        let ghost goal = stop_after(text, self.delim, self.pos as int);
        let mut p: usize = self.pos;
        let mut found = false;
        while !found && p < n
            invariant
                text == self.buf@,
                n == text.len(),
                p <= n,
                found ==> p == goal,
                !found ==> stop_after(text, self.delim, p as int) == goal,
            decreases
                    (if found {
                        0
                    } else {
                        n - p + 1
                    }),
        {
            p = p + 1;
            if text_is_stop(self.buf, self.delim, p) {
                found = true;
            }
        }
        self.pos = p;
    }

    /// Moves the cursor `amount` characters on, or to the end of the text
    /// if that is nearer, without looking for a stop.
    pub fn advance_exact(&mut self, amount: usize)
        ensures
            final(self)@ == (Scan {
                pos: if amount >= old(self)@.text.len() - old(self)@.pos {
                    old(self)@.text.len() as int
                } else {
                    old(self)@.pos + amount
                },
                ..old(self)@
            }),
    {
        proof {
            use_type_invariant(&*self);
        }
        let n = self.buf.len();
        if amount >= n - self.pos {
            self.pos = n;
        } else {
            self.pos = self.pos + amount;
        }
    }

    /// Tells whether `pattern` stands right before the delimiters that the
    /// cursor has just passed.
    pub fn peek_back(&self, pattern: &str) -> (r: bool)
        ensures
            r == peek_back_at(self@.text, self@.delim, self@.pos, pattern@),
    {
        proof {
            use_type_invariant(self);
        }
        text_peek_back(self.buf, self.delim, self.pos, pattern)
    }

    /// Tells whether `pattern` stands right at the cursor.
    pub fn peek_forward(&self, pattern: &str) -> (r: bool)
        ensures
            r == peek_forward_at(self@.text, self@.pos, pattern@),
    {
        text_stands_at(self.buf, self.pos, pattern)
    }

    /// Tells whether the stop at which the cursor stands ends no sentence:
    /// whether a pattern of `back` stands before its delimiters or a
    /// pattern of `forward` behind them. In the second case the cursor
    /// moves past the pattern.
    pub fn advance_if_peek(&mut self, forward: &[&str], back: &[&str]) -> (r: bool)
        ensures
            (r, final(self)@.pos) == skip_forward_step(
                old(self)@.text,
                old(self)@.delim,
                old(self)@.pos,
                pattern_chars(forward@),
                pattern_chars(back@),
            ),
            r == skipped(
                old(self)@.text,
                old(self)@.delim,
                old(self)@.pos,
                pattern_chars(forward@),
                pattern_chars(back@),
            ),
            final(self)@.text == old(self)@.text,
            final(self)@.delim == old(self)@.delim,
            old(self)@.pos <= final(self)@.pos,
    {
        proof {
            use_type_invariant(&*self);
        }
        let ghost text = self.buf@;
        let ghost pos = self.pos as int;
        let ghost fs = pattern_chars(forward@);
        let ghost bs = pattern_chars(back@);
        for i in 0..back.len()
            invariant
                text == self.buf@,
                pos == self.pos,
                self@ == old(self)@,
                bs == pattern_chars(back@),
                fs == pattern_chars(forward@),
                first_hit(back_hits(text, self.delim, pos, bs), i as int) == first_hit(
                    back_hits(text, self.delim, pos, bs),
                    0,
                ),
        {
            assert(bs[i as int] == back@[i as int]@);
            if self.peek_back(back[i]) {
                return true;
            }
        }
        for i in 0..forward.len()
            invariant
                text == self.buf@,
                pos == self.pos,
                self@ == old(self)@,
                fs == pattern_chars(forward@),
                bs == pattern_chars(back@),
                first_hit(back_hits(text, self.delim, pos, bs), 0) == bs.len(),
                first_hit(forward_hits(text, pos, fs), i as int) == first_hit(
                    forward_hits(text, pos, fs),
                    0,
                ),
        {
            assert(fs[i as int] == forward@[i as int]@);
            if self.peek_forward(forward[i]) {
                let k = forward[i].unicode_len();
                self.advance_exact(k);
                return true;
            }
        }
        false
    }

    /// Walks to the next stop that ends a sentence, past every stop that a
    /// pattern of `forward` or `back` skips. The cursor comes to rest at a
    /// stop that no pattern skips, or at the end of the text.
    pub fn advance_to_stop(&mut self, forward: &[&str], back: &[&str])
        ensures
            final(self)@ == (Scan {
                pos: next_stop(
                    old(self)@.text,
                    old(self)@.delim,
                    pattern_chars(forward@),
                    pattern_chars(back@),
                    old(self)@.pos,
                ),
                ..old(self)@
            }),
            old(self)@.pos <= final(self)@.pos <= old(self)@.text.len(),
            old(self)@.pos < old(self)@.text.len() ==> old(self)@.pos < final(self)@.pos,
            final(self)@.pos == old(self)@.text.len() || real_stop(
                old(self)@.text,
                old(self)@.delim,
                final(self)@.pos,
                pattern_chars(forward@),
                pattern_chars(back@),
            ),
    {
        let ghost text = self@.text;
        let ghost delim = self@.delim;
        let ghost fs = pattern_chars(forward@);
        let ghost bs = pattern_chars(back@);
        let ghost goal = next_stop(text, delim, fs, bs, self@.pos);
        proof {
            use_type_invariant(&*self);
            lemma_next_stop(text, delim, fs, bs, self@.pos);
        }
        let mut walking = true;
        while walking
            invariant
                self@.text == text,
                self@.delim == delim,
                text == old(self)@.text,
                delim == old(self)@.delim,
                fs == pattern_chars(forward@),
                bs == pattern_chars(back@),
                old(self)@.pos <= self@.pos <= text.len(),
                walking ==> next_stop(text, delim, fs, bs, self@.pos) == goal,
                !walking ==> self@.pos == goal,
            decreases
                    (if walking {
                        text.len() - self@.pos + 1
                    } else {
                        0
                    }),
        {
            let before = self.pos();
            self.advance();
            let skipped = self.advance_if_peek(forward, back);
            let after = self.pos();
            if !(skipped && before < after) {
                walking = false;
            }
        }
    }
}

/// A cursor that walks a text backward, from stop to stop.
#[derive(Debug)]
pub struct CursorRev<'a> {
    buf: &'a [char],
    pos: usize,
    delim: char,
}

impl<'a> View for CursorRev<'a> {
    type V = Scan;

    closed spec fn view(&self) -> Scan {
        Scan { text: self.buf@, pos: self.pos as int, delim: self.delim }
    }
}

impl<'a> CursorRev<'a> {
    #[verifier::type_invariant]
    spec fn within_text(self) -> bool {
        self.pos <= self.buf@.len()
    }

    /// A cursor at the end of `input`.
    pub fn new(input: &'a [char], delim: char) -> (c: Self)
        ensures
            c@ == (Scan { text: input@, pos: input@.len() as int, delim }),
    {
        Self { buf: input, pos: input.len(), delim }
    }

    /// A cursor at position `pos` of `input`, or at its end if `pos` lies
    /// behind it.
    pub fn at(input: &'a [char], delim: char, pos: usize) -> (c: Self)
        ensures
            c@ == (Scan {
                text: input@,
                pos: if pos <= input@.len() {
                    pos as int
                } else {
                    input@.len() as int
                },
                delim,
            }),
    {
        let n = input.len();
        Self {
            buf: input,
            pos: if pos <= n {
                pos
            } else {
                n
            },
            delim,
        }
    }

    /// The position of the cursor, which never lies behind the end of the
    /// text.
    pub fn pos(&self) -> (p: usize)
        ensures
            p == self@.pos,
            p <= self@.text.len(),
    {
        proof {
            use_type_invariant(self);
        }
        self.pos
    }

    /// The text from the cursor on.
    pub fn get_slice(&self) -> (s: &'a [char])
        ensures
            s@ == self@.text.subrange(self@.pos, self@.text.len() as int),
    {
        proof {
            use_type_invariant(self);
        }
        slice_subrange(self.buf, self.pos, self.buf.len())
    }

    /// Moves the cursor back to the stop before it: right behind the last
    /// delimiter before the cursor that no delimiter follows, or to the
    /// start of the text if there is none. No stop lies between the new
    /// position and the old.
    pub fn advance(&mut self)
        ensures
            final(self)@ == (Scan {
                pos: stop_before(old(self)@.text, old(self)@.delim, old(self)@.pos),
                ..old(self)@
            }),
            0 <= final(self)@.pos <= old(self)@.pos,
            0 < old(self)@.pos ==> final(self)@.pos < old(self)@.pos,
            final(self)@.pos == 0 || is_stop(old(self)@.text, old(self)@.delim, final(self)@.pos),
            forall|q: int|
                final(self)@.pos < q < old(self)@.pos ==> !is_stop(
                    old(self)@.text,
                    old(self)@.delim,
                    q,
                ),
    {
        proof {
            use_type_invariant(&*self);
            lemma_stop_before(self.buf@, self.delim, self.pos as int);
        }
        let ghost text = self.buf@;
        let ghost goal = stop_before(text, self.delim, self.pos as int);
        let mut p: usize = self.pos;
        let mut found = false;
        while !found && p > 0
            invariant
                text == self.buf@,
                p <= text.len(),
                found ==> p == goal,
                !found ==> stop_before(text, self.delim, p as int) == goal,
            decreases
                    (if found {
                        0
                    } else {
                        p + 1
                    }),
        {
            p = p - 1;
            if text_is_stop(self.buf, self.delim, p) {
                found = true;
            }
        }
        self.pos = p;
    }

    /// Moves the cursor `amount` characters back, or to the start of the
    /// text if that is nearer, and tells whether the cursor has reached the
    /// start.
    pub fn advance_exact(&mut self, amount: usize) -> (r: bool)
        ensures
            final(self)@ == (Scan {
                pos: if amount >= old(self)@.pos {
                    0
                } else {
                    old(self)@.pos - amount
                },
                ..old(self)@
            }),
            r == (final(self)@.pos == 0),
    {
        proof {
            use_type_invariant(&*self);
        }
        self.pos = if self.pos > amount {
            self.pos - amount
        } else {
            0
        };
        self.pos == 0
    }

    /// Tells whether `pattern` stands right before the delimiters behind
    /// which the cursor rests.
    pub fn peek_back(&self, pattern: &str) -> (r: bool)
        ensures
            r == peek_back_at(self@.text, self@.delim, self@.pos, pattern@),
    {
        proof {
            use_type_invariant(self);
        }
        text_peek_back(self.buf, self.delim, self.pos, pattern)
    }

    /// Tells whether `pattern` stands right at the cursor.
    pub fn peek_forward(&self, pattern: &str) -> (r: bool)
        ensures
            r == peek_forward_at(self@.text, self@.pos, pattern@),
    {
        text_stands_at(self.buf, self.pos, pattern)
    }

    /// Tells whether the stop at which the cursor rests ends no sentence:
    /// whether a pattern of `back` stands before its delimiters or a
    /// pattern of `forward` behind them. In the first case the cursor moves
    /// to the start of the pattern.
    pub fn advance_if_peek(&mut self, forward: &[&str], back: &[&str]) -> (r: bool)
        ensures
            (r, final(self)@.pos) == skip_backward_step(
                old(self)@.text,
                old(self)@.delim,
                old(self)@.pos,
                pattern_chars(forward@),
                pattern_chars(back@),
            ),
            r == skipped(
                old(self)@.text,
                old(self)@.delim,
                old(self)@.pos,
                pattern_chars(forward@),
                pattern_chars(back@),
            ),
            final(self)@.text == old(self)@.text,
            final(self)@.delim == old(self)@.delim,
            0 <= final(self)@.pos <= old(self)@.pos,
    {
        proof {
            use_type_invariant(&*self);
            lemma_run_start(self.buf@, self.delim, self.pos as int);
        }
        let ghost text = self.buf@;
        let ghost pos = self.pos as int;
        let ghost fs = pattern_chars(forward@);
        let ghost bs = pattern_chars(back@);
        for i in 0..back.len()
            invariant
                text == self.buf@,
                pos == self.pos,
                pos <= text.len(),
                self@ == old(self)@,
                bs == pattern_chars(back@),
                fs == pattern_chars(forward@),
                first_hit(back_hits(text, self.delim, pos, bs), i as int) == first_hit(
                    back_hits(text, self.delim, pos, bs),
                    0,
                ),
        {
            assert(bs[i as int] == back@[i as int]@);
            if self.peek_back(back[i]) {
                let k = back[i].unicode_len();
                let start = text_run_start(self.buf, self.delim, self.pos);
                self.pos = start - k;
                return true;
            }
        }
        for i in 0..forward.len()
            invariant
                text == self.buf@,
                pos == self.pos,
                self@ == old(self)@,
                fs == pattern_chars(forward@),
                bs == pattern_chars(back@),
                first_hit(back_hits(text, self.delim, pos, bs), 0) == bs.len(),
                first_hit(forward_hits(text, pos, fs), i as int) == first_hit(
                    forward_hits(text, pos, fs),
                    0,
                ),
        {
            assert(fs[i as int] == forward@[i as int]@);
            if self.peek_forward(forward[i]) {
                return true;
            }
        }
        false
    }

    /// Walks back to the next stop that ends a sentence, past every stop
    /// that a pattern of `forward` or `back` skips. The cursor comes to
    /// rest at a stop that no pattern skips, or at the start of the text.
    pub fn advance_to_stop(&mut self, forward: &[&str], back: &[&str])
        ensures
            final(self)@ == (Scan {
                pos: prev_stop(
                    old(self)@.text,
                    old(self)@.delim,
                    pattern_chars(forward@),
                    pattern_chars(back@),
                    old(self)@.pos,
                ),
                ..old(self)@
            }),
            0 <= final(self)@.pos <= old(self)@.pos,
            0 < old(self)@.pos ==> final(self)@.pos < old(self)@.pos,
            final(self)@.pos == 0 || real_stop(
                old(self)@.text,
                old(self)@.delim,
                final(self)@.pos,
                pattern_chars(forward@),
                pattern_chars(back@),
            ),
    {
        let ghost text = self@.text;
        let ghost delim = self@.delim;
        let ghost fs = pattern_chars(forward@);
        let ghost bs = pattern_chars(back@);
        let ghost goal = prev_stop(text, delim, fs, bs, self@.pos);
        proof {
            use_type_invariant(&*self);
            lemma_prev_stop(text, delim, fs, bs, self@.pos);
        }
        let mut walking = true;
        while walking
            invariant
                self@.text == text,
                self@.delim == delim,
                text == old(self)@.text,
                delim == old(self)@.delim,
                fs == pattern_chars(forward@),
                bs == pattern_chars(back@),
                0 <= self@.pos <= old(self)@.pos,
                walking ==> prev_stop(text, delim, fs, bs, self@.pos) == goal,
                !walking ==> self@.pos == goal,
            decreases
                    (if walking {
                        self@.pos + 1
                    } else {
                        0
                    }),
        {
            let before = self.pos();
            self.advance();
            let skipped = self.advance_if_peek(forward, back);
            let after = self.pos();
            if !(skipped && after < before) {
                walking = false;
            }
        }
    }
}

} // verus!
