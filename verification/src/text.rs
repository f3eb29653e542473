//! Byte-level tools for UTF-8 text: code-point boundaries, slicing, white
//! space and literal search.
use vstd::prelude::*;
use vstd::string::{StringExecFns, StringSliceAdditionalSpecFns};
use vstd::utf8::{
    encode_utf8_valid_utf8, is_char_boundary, is_char_boundary_iff_not_is_continuation_byte,
    is_char_boundary_start_end_of_seq, length_of_first_scalar, pop_first_scalar,
    valid_first_scalar, valid_utf8, valid_utf8_split,
};

verus! {

/// The largest code-point boundary of `t` that is at most `i`; positions
/// outside the text are clamped to its ends.
pub open spec fn floor_boundary(t: Seq<u8>, i: int) -> int
    decreases i,
{
    if i <= 0 {
        0
    } else if i >= t.len() {
        t.len() as int
    } else if is_char_boundary(t, i) {
        i
    } else {
        floor_boundary(t, i - 1)
    }
}

/// The smallest code-point boundary of `t` that is at least `i`; positions
/// outside the text are clamped to its ends.
pub open spec fn ceil_boundary(t: Seq<u8>, i: int) -> int
    decreases t.len() - i,
{
    if i >= t.len() {
        t.len() as int
    } else if i <= 0 {
        0
    } else if is_char_boundary(t, i) {
        i
    } else {
        ceil_boundary(t, i + 1)
    }
}

/// `floor_boundary` lands on a boundary inside the text, never moves forward,
/// and leaves boundaries where they are.
pub proof fn lemma_floor_boundary(t: Seq<u8>, i: int)
    requires
        valid_utf8(t),
    ensures
        0 <= floor_boundary(t, i) <= t.len(),
        i >= 0 ==> floor_boundary(t, i) <= i,
        is_char_boundary(t, floor_boundary(t, i)),
        0 <= i <= t.len() && is_char_boundary(t, i) ==> floor_boundary(t, i) == i,
    decreases i,
{
    is_char_boundary_start_end_of_seq(t);
    if i <= 0 {
    } else if i >= t.len() {
    } else if is_char_boundary(t, i) {
    } else {
        lemma_floor_boundary(t, i - 1);
    }
}

/// `ceil_boundary` lands on a boundary inside the text, never moves backward,
/// and leaves boundaries where they are.
pub proof fn lemma_ceil_boundary(t: Seq<u8>, i: int)
    requires
        valid_utf8(t),
    ensures
        0 <= ceil_boundary(t, i) <= t.len(),
        i <= t.len() ==> i <= ceil_boundary(t, i),
        is_char_boundary(t, ceil_boundary(t, i)),
        0 <= i <= t.len() && is_char_boundary(t, i) ==> ceil_boundary(t, i) == i,
    decreases t.len() - i,
{
    is_char_boundary_start_end_of_seq(t);
    if i >= t.len() {
    } else if i <= 0 {
    } else if is_char_boundary(t, i) {
    } else {
        lemma_ceil_boundary(t, i + 1);
    }
}

/// Rounding down keeps the order of positions.
pub proof fn lemma_floor_monotone(t: Seq<u8>, i: int, j: int)
    requires
        valid_utf8(t),
        i <= j,
    ensures
        floor_boundary(t, i) <= floor_boundary(t, j),
    decreases j,
{
    lemma_floor_boundary(t, i);
    lemma_floor_boundary(t, j);
    if j <= 0 {
    } else if j >= t.len() {
    } else if is_char_boundary(t, j) {
    } else if i == j {
    } else {
        lemma_floor_monotone(t, i, j - 1);
    }
}

/// Rounding up stops at the first boundary: no boundary lies between a
/// position and its rounding.
pub proof fn lemma_ceil_least(t: Seq<u8>, i: int, b: int)
    requires
        valid_utf8(t),
        i <= b <= t.len(),
        is_char_boundary(t, b),
    ensures
        ceil_boundary(t, i) <= b,
    decreases t.len() - i,
{
    lemma_ceil_boundary(t, i);
    if i >= t.len() {
    } else if i <= 0 {
    } else if is_char_boundary(t, i) {
    } else {
        lemma_ceil_least(t, i + 1, b);
    }
}

/// Rounding down stops at the first boundary: no boundary lies between a
/// position and its rounding.
pub proof fn lemma_floor_greatest(t: Seq<u8>, i: int, b: int)
    requires
        valid_utf8(t),
        0 <= b <= i,
        is_char_boundary(t, b),
    ensures
        b <= floor_boundary(t, i),
{
    lemma_floor_boundary(t, b);
    if b <= t.len() {
        lemma_floor_monotone(t, b, i);
    }
}

/// A boundary of a text is still a boundary of any prefix that reaches it.
pub proof fn lemma_boundary_in_prefix(t: Seq<u8>, a: int, b: int)
    requires
        valid_utf8(t),
        0 <= a <= b <= t.len(),
        is_char_boundary(t, a),
        is_char_boundary(t, b),
    ensures
        valid_utf8(t.subrange(0, b)),
        is_char_boundary(t.subrange(0, b), a),
{
    let head = t.subrange(0, b);
    valid_utf8_split(t, b);
    is_char_boundary_start_end_of_seq(head);
    if a < b {
        is_char_boundary_iff_not_is_continuation_byte(t, a);
        is_char_boundary_iff_not_is_continuation_byte(head, a);
    }
}

/// A byte that no character continues with starts a character.
pub proof fn lemma_boundary_by_byte(t: Seq<u8>, i: int)
    requires
        valid_utf8(t),
        0 <= i < t.len(),
    ensures
        is_char_boundary(t, i) <==> !(0x80 <= t[i] <= 0xbf),
{
    is_char_boundary_iff_not_is_continuation_byte(t, i);
}

/// Behind a boundary inside the text stands a whole character, and the
/// text goes on from a boundary behind it. The first byte of the character
/// says how many bytes it takes.
pub proof fn lemma_next_char(t: Seq<u8>, i: int)
    requires
        valid_utf8(t),
        0 <= i < t.len(),
        is_char_boundary(t, i),
    ensures
        ({
            let w = length_of_first_scalar(t.subrange(i, t.len() as int));
            &&& 1 <= w <= 4
            &&& i + w <= t.len()
            &&& is_char_boundary(t, i + w)
            &&& !(0x80 <= t[i] <= 0xbf)
        }),
{
    let n = t.len() as int;
    let rest = t.subrange(i, n);
    valid_utf8_split(t, i);
    is_char_boundary_start_end_of_seq(t);
    lemma_boundary_by_byte(t, i);
    assert(valid_first_scalar(rest) && valid_utf8(pop_first_scalar(rest)));
    let w = length_of_first_scalar(rest);
    let after = pop_first_scalar(rest);
    if i + w < n {
        assert(after.len() > 0);
        assert(valid_first_scalar(after));
        assert(after[0] == t[i + w]);
        lemma_boundary_by_byte(t, i + w);
    }
}

/// A text that is well-formed UTF-8 and stands at the head of another ends
/// on a boundary of the other.
pub proof fn lemma_head_boundary(t: Seq<u8>, head: Seq<u8>)
    requires
        valid_utf8(t),
        valid_utf8(head),
        head.len() <= t.len(),
        t.subrange(0, head.len() as int) == head,
    ensures
        is_char_boundary(t, head.len() as int),
    decreases head.len(),
{
    if head.len() > 0 {
        let w = length_of_first_scalar(head);
        assert(head[0] == t.subrange(0, head.len() as int)[0]);
        assert(w == length_of_first_scalar(t));
        assert(w <= head.len());
        let rest = pop_first_scalar(head);
        let after = pop_first_scalar(t);
        assert(after.subrange(0, rest.len() as int) =~= rest) by {
            assert forall|k: int| 0 <= k < rest.len() implies after[k] == rest[k] by {
                assert(rest[k] == head[w + k]);
                assert(head[w + k] == t.subrange(0, head.len() as int)[w + k]);
            }
        }
        lemma_head_boundary(after, rest);
    }
}

/// Where well-formed UTF-8 that is not empty stands in a text, it stands
/// between two code-point boundaries: no character of the text is split by
/// either of its ends.
pub proof fn lemma_occurrence_boundaries(t: Seq<u8>, pattern: Seq<u8>, i: int)
    requires
        valid_utf8(t),
        valid_utf8(pattern),
        pattern.len() > 0,
        occurs_at(t, pattern, i),
    ensures
        is_char_boundary(t, i),
        is_char_boundary(t, i + pattern.len()),
{
    let n = t.len() as int;
    let m = pattern.len() as int;
    let part = t.subrange(i, i + m);
    assert(valid_first_scalar(pattern));
    assert(part[0] == t[i]);
    lemma_boundary_by_byte(t, i);
    valid_utf8_split(t, i);
    let rest = t.subrange(i, n);
    assert(rest.subrange(0, m) =~= pattern);
    lemma_head_boundary(rest, pattern);
    is_char_boundary_start_end_of_seq(t);
    if i + m < n {
        lemma_boundary_by_byte(rest, m);
        assert(rest[m] == t[i + m]);
        lemma_boundary_by_byte(t, i + m);
    }
}

/// The bytes of a string slice are well-formed UTF-8, so that its two ends
/// are code-point boundaries.
pub proof fn lemma_str_bytes(s: &str)
    ensures
        valid_utf8(s.spec_bytes()),
        is_char_boundary(s.spec_bytes(), 0),
        is_char_boundary(s.spec_bytes(), s.spec_bytes().len() as int),
{
    encode_utf8_valid_utf8(s@);
    is_char_boundary_start_end_of_seq(s.spec_bytes());
}

/// The length of `s` in bytes.
pub fn byte_len(s: &str) -> (n: usize)
    ensures
        n == s.spec_bytes().len(),
{
    s.as_bytes().len()
}

/// Rounds the byte offset `i` down to a code-point boundary of `s`.
pub fn floor_char_boundary(s: &str, i: usize) -> (r: usize)
    ensures
        r == floor_boundary(s.spec_bytes(), i as int),
        r <= i,
        r <= s.spec_bytes().len(),
        is_char_boundary(s.spec_bytes(), r as int),
{
    proof {
        lemma_str_bytes(s);
        lemma_floor_boundary(s.spec_bytes(), i as int);
    }
    let n = byte_len(s);
    if i >= n {
        return n;
    }
    let mut j: usize = i;
    while j > 0 && !s.is_char_boundary(j)
        invariant
            j <= i < s.spec_bytes().len(),
            floor_boundary(s.spec_bytes(), j as int) == floor_boundary(s.spec_bytes(), i as int),
        decreases j,
    {
        j = j - 1;
    }
    j
}

/// Rounds the byte offset `i` up to a code-point boundary of `s`.
pub fn ceil_char_boundary(s: &str, i: usize) -> (r: usize)
    ensures
        r == ceil_boundary(s.spec_bytes(), i as int),
        r <= s.spec_bytes().len(),
        i <= s.spec_bytes().len() ==> i <= r,
        is_char_boundary(s.spec_bytes(), r as int),
{
    proof {
        lemma_str_bytes(s);
        lemma_ceil_boundary(s.spec_bytes(), i as int);
    }
    let n = byte_len(s);
    if i >= n {
        return n;
    }
    let mut j: usize = i;
    while j < n && j > 0 && !s.is_char_boundary(j)
        invariant
            i <= j <= n,
            n == s.spec_bytes().len(),
            ceil_boundary(s.spec_bytes(), j as int) == ceil_boundary(s.spec_bytes(), i as int),
        decreases n - j,
    {
        j = j + 1;
    }
    j
}

/// The part of `s` between the byte offsets `a` and `b`.
pub fn slice<'a>(s: &'a str, a: usize, b: usize) -> (r: &'a str)
    requires
        a <= b <= s.spec_bytes().len(),
        is_char_boundary(s.spec_bytes(), a as int),
        is_char_boundary(s.spec_bytes(), b as int),
    ensures
        r.spec_bytes() == s.spec_bytes().subrange(a as int, b as int),
{
    proof {
        lemma_str_bytes(s);
        lemma_boundary_in_prefix(s.spec_bytes(), a as int, b as int);
    }
    let (head, _) = s.split_at(b);
    let (_, r) = head.split_at(a);
    assert(r.spec_bytes() =~= s.spec_bytes().subrange(a as int, b as int));
    r
}

/// Width in bytes of the white-space code point that the bytes `b0 b1 b2`
/// begin with, or 0 if they begin with none.
///
/// White space is what Unicode gives the property `White_Space`: U+0009
/// to U+000D, U+0020, U+0085, U+00A0, U+1680, U+2000 to U+200A, U+2028,
/// U+2029, U+202F, U+205F and U+3000.
pub open spec fn space_code_width(b0: u8, b1: u8, b2: u8) -> int {
    if b0 == 0x20 || (0x09 <= b0 && b0 <= 0x0D) {
        1
    } else if b0 == 0xC2 && (b1 == 0x85 || b1 == 0xA0) {
        2
    } else if b0 == 0xE1 && b1 == 0x9A && b2 == 0x80 {
        3
    } else if b0 == 0xE2 && b1 == 0x80 && ((0x80 <= b2 && b2 <= 0x8A) || b2 == 0xA8 || b2 == 0xA9
        || b2 == 0xAF) {
        3
    } else if b0 == 0xE2 && b1 == 0x81 && b2 == 0x9F {
        3
    } else if b0 == 0xE3 && b1 == 0x80 && b2 == 0x80 {
        3
    } else {
        0
    }
}

/// The byte of `t` at `i`, or 0 past its end.
pub open spec fn byte_or_zero(t: Seq<u8>, i: int) -> u8 {
    if 0 <= i < t.len() {
        t[i]
    } else {
        0
    }
}

/// Width of the white-space character that the bytes of `t` from `i` on
/// begin with, or 0 if they begin with none.
pub open spec fn space_width_at(t: Seq<u8>, i: int) -> int {
    let w = space_code_width(byte_or_zero(t, i), byte_or_zero(t, i + 1), byte_or_zero(t, i + 2));
    if 0 <= i && i + w <= t.len() {
        w
    } else {
        0
    }
}

/// Width of the white-space character that the bytes of `t` up to `j` end
/// with, or 0 if they end with none.
pub open spec fn space_width_before(t: Seq<u8>, j: int) -> int {
    if j > t.len() {
        0
    } else if j >= 1 && space_code_width(t[j - 1], 0, 0) == 1 {
        1
    } else if j >= 2 && space_code_width(t[j - 2], t[j - 1], 0) == 2 {
        2
    } else if j >= 3 && space_code_width(t[j - 3], t[j - 2], t[j - 1]) == 3 {
        3
    } else {
        0
    }
}

/// The first offset from `i` on at which no white-space character starts.
pub open spec fn skip_spaces(t: Seq<u8>, i: int) -> int
    decreases t.len() - i,
{
    let w = space_width_at(t, i);
    if w > 0 {
        skip_spaces(t, i + w)
    } else {
        i
    }
}

/// The last offset down from `j`, and not below `lo`, at which no white-space
/// character ends.
pub open spec fn skip_spaces_back(t: Seq<u8>, lo: int, j: int) -> int
    decreases j,
{
    let w = space_width_before(t, j);
    if w > 0 && lo <= j - w {
        skip_spaces_back(t, lo, j - w)
    } else {
        j
    }
}

/// Where the text starts once its leading white space is removed.
pub open spec fn trim_start(t: Seq<u8>) -> int {
    skip_spaces(t, 0)
}

/// Where the text ends once its trailing white space is removed.
pub open spec fn trim_end(t: Seq<u8>) -> int {
    skip_spaces_back(t, trim_start(t), t.len() as int)
}

/// True when the text is empty or holds white space only.
pub open spec fn is_blank(t: Seq<u8>) -> bool {
    trim_start(t) == t.len()
}

/// Skipping white space stops on a code-point boundary inside the text.
pub proof fn lemma_skip_spaces(t: Seq<u8>, i: int)
    requires
        valid_utf8(t),
        0 <= i <= t.len(),
        is_char_boundary(t, i),
    ensures
        i <= skip_spaces(t, i) <= t.len(),
        is_char_boundary(t, skip_spaces(t, i)),
    decreases t.len() - i,
{
    let w = space_width_at(t, i);
    if w > 0 {
        lemma_next_char(t, i);
        assert(t.subrange(i, t.len() as int)[0] == t[i]);
        lemma_skip_spaces(t, i + w);
    }
}

/// Skipping white space backwards stops on a code-point boundary that is
/// not below `lo`.
pub proof fn lemma_skip_spaces_back(t: Seq<u8>, lo: int, j: int)
    requires
        valid_utf8(t),
        0 <= lo <= j <= t.len(),
        is_char_boundary(t, j),
    ensures
        lo <= skip_spaces_back(t, lo, j) <= j,
        is_char_boundary(t, skip_spaces_back(t, lo, j)),
    decreases j,
{
    let w = space_width_before(t, j);
    if w > 0 && lo <= j - w {
        lemma_boundary_by_byte(t, j - w);
        lemma_skip_spaces_back(t, lo, j - w);
    }
}

/// Executable form of `space_code_width`.
pub fn white_space_width(b0: u8, b1: u8, b2: u8) -> (w: usize)
    ensures
        w == space_code_width(b0, b1, b2),
        w <= 3,
{
    if b0 == 0x20 || (0x09 <= b0 && b0 <= 0x0D) {
        1
    } else if b0 == 0xC2 && (b1 == 0x85 || b1 == 0xA0) {
        2
    } else if b0 == 0xE1 && b1 == 0x9A && b2 == 0x80 {
        3
    } else if b0 == 0xE2 && b1 == 0x80 && ((0x80 <= b2 && b2 <= 0x8A) || b2 == 0xA8 || b2 == 0xA9
        || b2 == 0xAF) {
        3
    } else if b0 == 0xE2 && b1 == 0x81 && b2 == 0x9F {
        3
    } else if b0 == 0xE3 && b1 == 0x80 && b2 == 0x80 {
        3
    } else {
        0
    }
}

/// Width of the white-space character of `s` that starts at byte `i`, or 0.
pub fn space_at(s: &str, i: usize) -> (w: usize)
    ensures
        w == space_width_at(s.spec_bytes(), i as int),
        i + w <= s.spec_bytes().len() || w == 0,
{
    let bytes = s.as_bytes();
    let n = bytes.len();
    if i >= n {
        return 0;
    }
    let b0 = bytes[i];
    let b1 = if n - i > 1 { bytes[i + 1] } else { 0 };
    let b2 = if n - i > 2 { bytes[i + 2] } else { 0 };
    let w = white_space_width(b0, b1, b2);
    if w <= n - i {
        w
    } else {
        0
    }
}

/// Width of the white-space character of `s` that ends at byte `j`, or 0.
pub fn space_before(s: &str, j: usize) -> (w: usize)
    ensures
        w == space_width_before(s.spec_bytes(), j as int),
        w <= j,
{
    let bytes = s.as_bytes();
    let n = bytes.len();
    if j > n {
        0
    } else if j >= 1 && white_space_width(bytes[j - 1], 0, 0) == 1 {
        1
    } else if j >= 2 && white_space_width(bytes[j - 2], bytes[j - 1], 0) == 2 {
        2
    } else if j >= 3 && white_space_width(bytes[j - 3], bytes[j - 2], bytes[j - 1]) == 3 {
        3
    } else {
        0
    }
}

/// The byte range that is left of `s` once leading and trailing white space
/// is removed. A text of white space only leaves the empty range at its end.
pub fn trim_bounds(s: &str) -> (r: (usize, usize))
    ensures
        r.0 == trim_start(s.spec_bytes()),
        r.1 == trim_end(s.spec_bytes()),
        r.0 <= r.1 <= s.spec_bytes().len(),
        is_char_boundary(s.spec_bytes(), r.0 as int),
        is_char_boundary(s.spec_bytes(), r.1 as int),
{
    let n = byte_len(s);
    proof {
        lemma_str_bytes(s);
        lemma_skip_spaces(s.spec_bytes(), 0);
        lemma_skip_spaces_back(s.spec_bytes(), trim_start(s.spec_bytes()), n as int);
    }
    let mut a: usize = 0;
    let mut w = space_at(s, a);
    while w > 0
        invariant
            n == s.spec_bytes().len(),
            a <= n,
            w == space_width_at(s.spec_bytes(), a as int),
            skip_spaces(s.spec_bytes(), a as int) == skip_spaces(s.spec_bytes(), 0),
        decreases n - a,
    {
        a = a + w;
        w = space_at(s, a);
    }
    let mut b: usize = n;
    let mut v = space_before(s, b);
    while v > 0 && b - v >= a
        invariant
            n == s.spec_bytes().len(),
            a <= b <= n,
            a == trim_start(s.spec_bytes()),
            v == space_width_before(s.spec_bytes(), b as int),
            v <= b,
            skip_spaces_back(s.spec_bytes(), a as int, b as int) == trim_end(s.spec_bytes()),
        decreases b,
    {
        b = b - v;
        v = space_before(s, b);
    }
    (a, b)
}

/// Tells whether `s` is empty or holds white space only.
pub fn is_blank_str(s: &str) -> (r: bool)
    ensures
        r == is_blank(s.spec_bytes()),
{
    let (a, _) = trim_bounds(s);
    a == byte_len(s)
}

/// The bytes `pattern` stand in `t` at `i`.
pub open spec fn occurs_at(t: Seq<u8>, pattern: Seq<u8>, i: int) -> bool {
    &&& 0 <= i
    &&& i + pattern.len() <= t.len()
    &&& t.subrange(i, i + pattern.len()) == pattern
}

/// Tells whether `pattern` stands in `s` at byte `i`.
pub fn starts_at(s: &str, pattern: &str, i: usize) -> (r: bool)
    ensures
        r == occurs_at(s.spec_bytes(), pattern.spec_bytes(), i as int),
{
    let text = s.as_bytes();
    let pat = pattern.as_bytes();
    let n = text.len();
    let m = pat.len();
    if m > n || i > n - m {
        return false;
    }
    let mut j: usize = 0;
    while j < m
        invariant
            text@ == s.spec_bytes(),
            pat@ == pattern.spec_bytes(),
            n == text@.len(),
            m == pat@.len(),
            i + m <= n,
            j <= m,
            forall|k: int| 0 <= k < j ==> text@[i + k] == pat@[k],
        decreases m - j,
    {
        if text[i + j] != pat[j] {
            proof {
                let part = text@.subrange(i as int, i + m);
                assert(part[j as int] == text@[i + j]);
            }
            return false;
        }
        j = j + 1;
    }
    assert(text@.subrange(i as int, i + m) =~= pat@);
    true
}

/// The decimal digit `d` as a text.
pub open spec fn digit_text(d: int) -> Seq<char> {
    if d == 0 {
        "0"@
    } else if d == 1 {
        "1"@
    } else if d == 2 {
        "2"@
    } else if d == 3 {
        "3"@
    } else if d == 4 {
        "4"@
    } else if d == 5 {
        "5"@
    } else if d == 6 {
        "6"@
    } else if d == 7 {
        "7"@
    } else if d == 8 {
        "8"@
    } else {
        "9"@
    }
}

/// The number `n` in decimal digits, without leading zeros.
pub open spec fn decimal(n: nat) -> Seq<char>
    decreases n,
{
    if n < 10 {
        digit_text(n as int)
    } else {
        decimal(n / 10) + digit_text((n % 10) as int)
    }
}

/// The decimal digit `d`.
pub fn digit_str(d: usize) -> (r: &'static str)
    requires
        d < 10,
    ensures
        r@ == digit_text(d as int),
{
    if d == 0 {
        "0"
    } else if d == 1 {
        "1"
    } else if d == 2 {
        "2"
    } else if d == 3 {
        "3"
    } else if d == 4 {
        "4"
    } else if d == 5 {
        "5"
    } else if d == 6 {
        "6"
    } else if d == 7 {
        "7"
    } else if d == 8 {
        "8"
    } else {
        "9"
    }
}

/// Writes `n` in decimal digits.
pub fn decimal_string(n: usize) -> (r: String)
    ensures
        r@ == decimal(n as nat),
    decreases n,
{
    if n < 10 {
        String::from_str(digit_str(n))
    } else {
        let mut r = decimal_string(n / 10);
        r.append(digit_str(n % 10));
        r
    }
}

} // verus!
