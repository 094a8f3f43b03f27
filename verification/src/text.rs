//! Byte-level text primitives: searching, whitespace trimming, keyword
//! comparison and decimal numbers, each with its mathematical definition.
//!
//! All positions are byte offsets into UTF-8 text. Whitespace is the set of
//! characters with the Unicode `White_Space` property, recognised by their
//! UTF-8 encodings.
use vstd::prelude::*;
use vstd::slice::*;
use vstd::string::*;
use vstd::utf8::*;

verus! {

/// The first position in `from..to` at which `s` holds `b`, or `to` if there is none.
pub open spec fn first_at(s: Seq<u8>, b: u8, from: int, to: int) -> int
    decreases to - from,
{
    if from >= to {
        to
    } else if s[from] == b {
        from
    } else {
        first_at(s, b, from + 1, to)
    }
}

/// `first_at` returns a position in range, with no earlier occurrence.
pub proof fn lemma_first_at(s: Seq<u8>, b: u8, from: int, to: int)
    requires
        from <= to,
    ensures
        from <= first_at(s, b, from, to) <= to,
        first_at(s, b, from, to) < to ==> s[first_at(s, b, from, to)] == b,
        forall|i: int| from <= i < first_at(s, b, from, to) ==> s[i] != b,
    decreases to - from,
{
    if from < to && s[from] != b {
        lemma_first_at(s, b, from + 1, to);
    }
}

/// A position that holds `b` with nothing equal to `b` before it is `first_at`.
pub proof fn lemma_first_at_is(s: Seq<u8>, b: u8, from: int, to: int, at: int)
    requires
        from <= at <= to,
        forall|i: int| from <= i < at ==> s[i] != b,
        at < to ==> s[at] == b,
    ensures
        first_at(s, b, from, to) == at,
    decreases at - from,
{
    if from < at {
        lemma_first_at_is(s, b, from + 1, to, at);
    }
}

/// Tab, line feed, vertical tab, form feed, carriage return or space.
pub open spec fn is_ascii_space(b: u8) -> bool {
    (0x09 <= b <= 0x0D) || b == 0x20
}

/// The two-byte whitespace characters: U+0085 and U+00A0.
pub open spec fn is_space_pair(a: u8, b: u8) -> bool {
    a == 0xC2 && (b == 0x85 || b == 0xA0)
}

/// The three-byte whitespace characters: U+1680, U+2000 to U+200A, U+2028,
/// U+2029, U+202F, U+205F and U+3000.
pub open spec fn is_space_triple(a: u8, b: u8, c: u8) -> bool {
    ||| (a == 0xE1 && b == 0x9A && c == 0x80)
    ||| (a == 0xE2 && b == 0x80 && ((0x80 <= c <= 0x8A) || c == 0xA8 || c == 0xA9 || c == 0xAF))
    ||| (a == 0xE2 && b == 0x81 && c == 0x9F)
    ||| (a == 0xE3 && b == 0x80 && c == 0x80)
}

/// The length of the whitespace character that starts at `i` and ends by `to`,
/// or 0 if none does.
pub open spec fn space_len_at(s: Seq<u8>, i: int, to: int) -> int {
    if i + 1 <= to && is_ascii_space(s[i]) {
        1
    } else if i + 2 <= to && is_space_pair(s[i], s[i + 1]) {
        2
    } else if i + 3 <= to && is_space_triple(s[i], s[i + 1], s[i + 2]) {
        3
    } else {
        0
    }
}

/// The length of the whitespace character that ends at `j` and starts at or
/// after `from`, or 0 if none does.
pub open spec fn space_len_before(s: Seq<u8>, from: int, j: int) -> int {
    if from + 1 <= j && is_ascii_space(s[j - 1]) {
        1
    } else if from + 2 <= j && is_space_pair(s[j - 2], s[j - 1]) {
        2
    } else if from + 3 <= j && is_space_triple(s[j - 3], s[j - 2], s[j - 1]) {
        3
    } else {
        0
    }
}

/// Whether `c` is a whitespace character: one of the 25 characters with the
/// Unicode property `White_Space`.
pub open spec fn is_space_char(c: char) -> bool {
    let v = c as u32;
    ||| (0x09 <= v <= 0x0D)
    ||| v == 0x20
    ||| v == 0x85
    ||| v == 0xA0
    ||| v == 0x1680
    ||| (0x2000 <= v <= 0x200A)
    ||| v == 0x2028
    ||| v == 0x2029
    ||| v == 0x202F
    ||| v == 0x205F
    ||| v == 0x3000
}

/// Of a character of one byte: when the byte is ASCII whitespace.
proof fn lemma_space_of_one_byte(v: u32)
    by (bit_vector)
    requires
        v <= 0x7F,
    ensures
        ({
            let a = (v & 0x7F) as u8;
            ((0x09 <= a && a <= 0x0D) || a == 0x20) <==> ((0x09 <= v && v <= 0x0D) || v == 0x20)
        }),
        ({
            let a = (v & 0x7F) as u8;
            a <= 0x7F
        }),
{
}

/// Of a character of two bytes: when the bytes are a whitespace pair.
proof fn lemma_space_of_two_bytes(v: u32)
    by (bit_vector)
    requires
        0x80 <= v <= 0x7FF,
    ensures
        ({
            let a = 0xC0u8 | (((v >> 6) & 0x1F) as u8);
            let b = 0x80u8 | ((v & 0x3F) as u8);
            (a == 0xC2 && (b == 0x85 || b == 0xA0)) <==> (v == 0x85 || v == 0xA0)
        }),
        ({
            let a = 0xC0u8 | (((v >> 6) & 0x1F) as u8);
            let b = 0x80u8 | ((v & 0x3F) as u8);
            0xC0 <= a && a <= 0xDF && 0x80 <= b && b <= 0xBF
        }),
{
}

/// Of a character of three bytes: when the bytes are a whitespace triple.
proof fn lemma_space_of_three_bytes(v: u32)
    by (bit_vector)
    requires
        0x800 <= v <= 0xFFFF,
    ensures
        ({
            let a = 0xE0u8 | (((v >> 12) & 0x0F) as u8);
            let b = 0x80u8 | (((v >> 6) & 0x3F) as u8);
            let c = 0x80u8 | ((v & 0x3F) as u8);
            ((a == 0xE1 && b == 0x9A && c == 0x80) || (a == 0xE2 && b == 0x80 && ((0x80 <= c && c
                <= 0x8A) || c == 0xA8 || c == 0xA9 || c == 0xAF)) || (a == 0xE2 && b == 0x81 && c
                == 0x9F) || (a == 0xE3 && b == 0x80 && c == 0x80)) <==> (v == 0x1680 || (0x2000
                <= v && v <= 0x200A) || v == 0x2028 || v == 0x2029 || v == 0x202F || v == 0x205F
                || v == 0x3000)
        }),
        ({
            let a = 0xE0u8 | (((v >> 12) & 0x0F) as u8);
            let b = 0x80u8 | (((v >> 6) & 0x3F) as u8);
            let c = 0x80u8 | ((v & 0x3F) as u8);
            0xE0 <= a && a <= 0xEF && 0x80 <= b && b <= 0xBF && 0x80 <= c && c <= 0xBF
        }),
{
}

/// Of a character of four bytes: the ranges of its bytes.
proof fn lemma_space_of_four_bytes(v: u32)
    by (bit_vector)
    requires
        0x10000 <= v <= 0x10FFFF,
    ensures
        ({
            let a = 0xF0u8 | (((v >> 18) & 0x7) as u8);
            let b = 0x80u8 | (((v >> 12) & 0x3F) as u8);
            let c = 0x80u8 | (((v >> 6) & 0x3F) as u8);
            let d = 0x80u8 | ((v & 0x3F) as u8);
            0xF0 <= a && 0x80 <= b && b <= 0xBF && 0x80 <= c && c <= 0xBF && 0x80 <= d && d
                <= 0xBF
        }),
{
}

/// The UTF-8 encoding of one character.
pub open spec fn encoded(c: char) -> Seq<u8> {
    encode_utf8(seq![c])
}

/// Whether `e` is, in full, the encoding of a whitespace character.
pub open spec fn is_space_bytes(e: Seq<u8>) -> bool {
    ||| (e.len() == 1 && is_ascii_space(e[0]))
    ||| (e.len() == 2 && is_space_pair(e[0], e[1]))
    ||| (e.len() == 3 && is_space_triple(e[0], e[1], e[2]))
}

/// Whether `b` continues the encoding of a character.
pub open spec fn is_continuation(b: u8) -> bool {
    0x80 <= b <= 0xBF
}

/// The encoding of a character has one to four bytes, whose first tells how
/// many follow; and it is the encoding of whitespace exactly for the
/// whitespace characters.
pub proof fn lemma_encoded(c: char)
    ensures
        ({
            let e = encoded(c);
            &&& 1 <= e.len() <= 4
            &&& (e.len() == 1 ==> e[0] <= 0x7F)
            &&& (e.len() == 2 ==> 0xC0 <= e[0] <= 0xDF && is_continuation(e[1]))
            &&& (e.len() == 3 ==> 0xE0 <= e[0] <= 0xEF && is_continuation(e[1]) && is_continuation(
                e[2],
            ))
            &&& (e.len() == 4 ==> 0xF0 <= e[0] && is_continuation(e[1]) && is_continuation(e[2])
                && is_continuation(e[3]))
            &&& (is_space_char(c) <==> is_space_bytes(e))
        }),
{
    let v = c as u32;
    let chars = seq![c];
    let e = encode_utf8(chars);
    assert(chars.drop_first() =~= Seq::<char>::empty());
    assert(encode_utf8(chars.drop_first()) =~= Seq::<u8>::empty());
    assert(e =~= encode_scalar(v));
    char_is_scalar(c);
    if has_width_1_encoding(v) {
        lemma_space_of_one_byte(v);
    } else if has_width_2_encoding(v) {
        lemma_space_of_two_bytes(v);
    } else if has_width_3_encoding(v) {
        lemma_space_of_three_bytes(v);
    } else {
        lemma_space_of_four_bytes(v);
    }
}

/// Where a character starts, whitespace is found exactly if the character is
/// whitespace, and then in full.
pub proof fn lemma_space_at_char(s: Seq<u8>, i: int, to: int, c: char)
    requires
        0 <= i,
        i + encoded(c).len() <= to <= s.len(),
        s.subrange(i, i + encoded(c).len()) == encoded(c),
    ensures
        space_len_at(s, i, to) == if is_space_char(c) {
            encoded(c).len() as int
        } else {
            0
        },
{
    let e = encoded(c);
    lemma_encoded(c);
    let part = s.subrange(i, i + e.len());
    assert(part[0] == s[i]);
    if e.len() >= 2 {
        assert(part[1] == s[i + 1]);
    }
    if e.len() >= 3 {
        assert(part[2] == s[i + 2]);
    }
}

/// Where a character ends, whitespace is found exactly if the character is
/// whitespace, and then in full.
pub proof fn lemma_space_before_char(s: Seq<u8>, from: int, j: int, c: char)
    requires
        0 <= from <= j - encoded(c).len(),
        j <= s.len(),
        s.subrange(j - encoded(c).len(), j) == encoded(c),
    ensures
        space_len_before(s, from, j) == if is_space_char(c) {
            encoded(c).len() as int
        } else {
            0
        },
{
    let e = encoded(c);
    let n = e.len() as int;
    lemma_encoded(c);
    let part = s.subrange(j - n, j);
    assert(part[n - 1] == s[j - 1]);
    if n >= 2 {
        assert(part[n - 2] == s[j - 2]);
    }
    if n >= 3 {
        assert(part[n - 3] == s[j - 3]);
    }
}

/// The number of whitespace characters that `chars` starts with.
pub open spec fn leading_spaces(chars: Seq<char>) -> nat
    decreases chars.len(),
{
    if chars.len() > 0 && is_space_char(chars[0]) {
        1 + leading_spaces(chars.drop_first())
    } else {
        0
    }
}

/// The number of whitespace characters that `chars` ends with.
pub open spec fn trailing_spaces(chars: Seq<char>) -> nat
    decreases chars.len(),
{
    if chars.len() > 0 && is_space_char(chars.last()) {
        1 + trailing_spaces(chars.drop_last())
    } else {
        0
    }
}

/// `chars` without the whitespace characters that it starts and ends with.
pub open spec fn trimmed_chars(chars: Seq<char>) -> Seq<char> {
    let a = leading_spaces(chars);
    if a >= chars.len() {
        Seq::empty()
    } else {
        chars.subrange(a as int, chars.len() - trailing_spaces(chars))
    }
}

/// The first position at or after `i` where no whitespace character starts.
pub open spec fn skip_spaces(s: Seq<u8>, i: int, to: int) -> int
    decreases to - i,
{
    let w = space_len_at(s, i, to);
    if w > 0 {
        skip_spaces(s, i + w, to)
    } else {
        i
    }
}

/// The last position at or before `j` where no whitespace character ends.
pub open spec fn skip_spaces_back(s: Seq<u8>, from: int, j: int) -> int
    decreases j - from,
{
    let w = space_len_before(s, from, j);
    if w > 0 {
        skip_spaces_back(s, from, j - w)
    } else {
        j
    }
}

/// The range left of `from..to` once leading and trailing whitespace is
/// removed. Text that is all whitespace leaves the empty range at `from`.
pub open spec fn trimmed(s: Seq<u8>, from: int, to: int) -> (int, int) {
    let a = skip_spaces(s, from, to);
    if a >= to {
        (from, from)
    } else {
        (a, skip_spaces_back(s, a, to))
    }
}

/// Skipping whitespace stays in range and stops where no whitespace starts.
pub proof fn lemma_skip_spaces(s: Seq<u8>, i: int, to: int)
    requires
        i <= to,
    ensures
        i <= skip_spaces(s, i, to) <= to,
        space_len_at(s, skip_spaces(s, i, to), to) == 0,
    decreases to - i,
{
    let w = space_len_at(s, i, to);
    if w > 0 {
        lemma_skip_spaces(s, i + w, to);
    }
}

/// Skipping whitespace backwards stays in range and stops where no
/// whitespace ends.
pub proof fn lemma_skip_spaces_back(s: Seq<u8>, from: int, j: int)
    requires
        from <= j,
    ensures
        from <= skip_spaces_back(s, from, j) <= j,
        space_len_before(s, from, skip_spaces_back(s, from, j)) == 0,
    decreases j - from,
{
    let w = space_len_before(s, from, j);
    if w > 0 {
        lemma_skip_spaces_back(s, from, j - w);
    }
}

/// The trimmed range lies inside the range it was taken from.
pub proof fn lemma_trimmed_range(s: Seq<u8>, from: int, to: int)
    requires
        from <= to,
    ensures
        from <= trimmed(s, from, to).0 <= trimmed(s, from, to).1 <= to,
{
    lemma_skip_spaces(s, from, to);
    let a = skip_spaces(s, from, to);
    if a < to {
        lemma_skip_spaces_back(s, a, to);
    }
}

/// In UTF-8 text, a position that holds an ASCII byte is a character
/// boundary, and so is the position after it.
pub proof fn lemma_ascii_boundary(s: Seq<u8>, i: int)
    requires
        valid_utf8(s),
        0 <= i < s.len(),
        s[i] < 0x80,
    ensures
        is_char_boundary(s, i),
        is_char_boundary(s, i + 1),
{
    is_char_boundary_iff_not_is_continuation_byte(s, i);
    lemma_next_boundary(s, i);
}

/// In UTF-8 text, the end of the character that starts at a boundary is a
/// boundary too.
pub proof fn lemma_next_boundary(s: Seq<u8>, i: int)
    requires
        valid_utf8(s),
        is_char_boundary(s, i),
        0 <= i < s.len(),
    ensures
        is_leading_byte_width_1(s[i]) ==> is_char_boundary(s, i + 1),
        is_leading_byte_width_2(s[i]) ==> i + 2 <= s.len() && is_char_boundary(s, i + 2),
        is_leading_byte_width_3(s[i]) ==> i + 3 <= s.len() && is_char_boundary(s, i + 3),
        is_leading_byte_width_4(s[i]) ==> i + 4 <= s.len() && is_char_boundary(s, i + 4),
{
    let len = s.len() as int;
    let rest = s.subrange(i, len);
    valid_utf8_split(s, i);
    assert(valid_first_scalar(rest));
    assert(rest[0] == s[i]);
    let n = length_of_first_scalar(rest);
    let tail = pop_first_scalar(rest);
    assert(valid_utf8(tail));
    assert(tail =~= s.subrange(i + n, len));
    if i + n == len {
        is_char_boundary_start_end_of_seq(s);
    } else {
        assert(valid_first_scalar(tail));
        assert(tail[0] == s[i + n]);
        is_char_boundary_iff_not_is_continuation_byte(s, i + n);
    }
}

/// Skipping whitespace from a character boundary ends on one.
pub proof fn lemma_skip_spaces_boundary(s: Seq<u8>, i: int, to: int)
    requires
        valid_utf8(s),
        0 <= i <= to <= s.len(),
        is_char_boundary(s, i),
    ensures
        is_char_boundary(s, skip_spaces(s, i, to)),
    decreases to - i,
{
    let w = space_len_at(s, i, to);
    if w > 0 {
        lemma_next_boundary(s, i);
        lemma_skip_spaces_boundary(s, i + w, to);
    }
}

/// Skipping whitespace backwards from a character boundary ends on one.
pub proof fn lemma_skip_spaces_back_boundary(s: Seq<u8>, from: int, j: int)
    requires
        valid_utf8(s),
        0 <= from <= j <= s.len(),
        is_char_boundary(s, j),
    ensures
        is_char_boundary(s, skip_spaces_back(s, from, j)),
    decreases j - from,
{
    let w = space_len_before(s, from, j);
    if w > 0 {
        is_char_boundary_iff_not_is_continuation_byte(s, j - w);
        lemma_skip_spaces_back_boundary(s, from, j - w);
    }
}

/// Trimming a range between character boundaries leaves such a range.
pub proof fn lemma_trimmed_boundary(s: Seq<u8>, from: int, to: int)
    requires
        valid_utf8(s),
        0 <= from <= to <= s.len(),
        is_char_boundary(s, from),
        is_char_boundary(s, to),
    ensures
        is_char_boundary(s, trimmed(s, from, to).0),
        is_char_boundary(s, trimmed(s, from, to).1),
{
    lemma_skip_spaces(s, from, to);
    lemma_skip_spaces_boundary(s, from, to);
    let a = skip_spaces(s, from, to);
    if a < to {
        lemma_skip_spaces_back_boundary(s, a, to);
    }
}

/// Whether `t` holds in `from + by..to + by` what `s` holds in `from..to`.
pub open spec fn same_bytes(s: Seq<u8>, t: Seq<u8>, from: int, to: int, by: int) -> bool {
    forall|i: int| from <= i < to ==> s[i] == #[trigger] t[i + by]
}

/// The same bytes elsewhere are the same text.
pub proof fn lemma_subrange_moved(
    s: Seq<u8>,
    t: Seq<u8>,
    from: int,
    to: int,
    by: int,
    a: int,
    b: int,
)
    requires
        same_bytes(s, t, from, to, by),
        0 <= from <= a <= b <= to <= s.len(),
        0 <= from + by,
        to + by <= t.len(),
    ensures
        t.subrange(a + by, b + by) == s.subrange(a, b),
{
    let x = s.subrange(a, b);
    let y = t.subrange(a + by, b + by);
    assert forall|i: int| 0 <= i < x.len() implies #[trigger] x[i] == y[i] by {
        assert(s[a + i] == t[(a + i) + by]);
    }
    assert(x =~= y);
}

/// Searching looks at nothing outside its range: the same bytes elsewhere
/// give the same position, moved.
pub proof fn lemma_first_at_moved(s: Seq<u8>, t: Seq<u8>, b: u8, from: int, to: int, by: int)
    requires
        same_bytes(s, t, from, to, by),
    ensures
        first_at(t, b, from + by, to + by) == first_at(s, b, from, to) + by,
    decreases to - from,
{
    if from < to {
        assert(s[from] == t[from + by]);
        if s[from] != b {
            lemma_first_at_moved(s, t, b, from + 1, to, by);
        }
    }
}

/// The length of a whitespace character depends only on the bytes in range.
pub proof fn lemma_space_len_moved(s: Seq<u8>, t: Seq<u8>, from: int, to: int, by: int, i: int)
    requires
        same_bytes(s, t, from, to, by),
        from <= i <= to,
    ensures
        space_len_at(t, i + by, to + by) == space_len_at(s, i, to),
        space_len_before(t, from + by, i + by) == space_len_before(s, from, i),
{
    if i + 1 <= to {
        assert(s[i] == t[i + by]);
    }
    if i + 2 <= to {
        assert(s[i + 1] == t[i + 1 + by]);
    }
    if i + 3 <= to {
        assert(s[i + 2] == t[i + 2 + by]);
    }
    if from + 1 <= i {
        assert(s[i - 1] == t[i - 1 + by]);
    }
    if from + 2 <= i {
        assert(s[i - 2] == t[i - 2 + by]);
    }
    if from + 3 <= i {
        assert(s[i - 3] == t[i - 3 + by]);
    }
}

/// Skipping whitespace looks at nothing outside its range.
pub proof fn lemma_skip_spaces_moved(s: Seq<u8>, t: Seq<u8>, from: int, to: int, by: int, i: int)
    requires
        same_bytes(s, t, from, to, by),
        from <= i <= to,
    ensures
        skip_spaces(t, i + by, to + by) == skip_spaces(s, i, to) + by,
    decreases to - i,
{
    lemma_space_len_moved(s, t, from, to, by, i);
    let w = space_len_at(s, i, to);
    if w > 0 {
        lemma_skip_spaces_moved(s, t, from, to, by, i + w);
    }
}

/// Skipping whitespace backwards looks at nothing outside its range.
pub proof fn lemma_skip_spaces_back_moved(
    s: Seq<u8>,
    t: Seq<u8>,
    from: int,
    to: int,
    by: int,
    j: int,
)
    requires
        same_bytes(s, t, from, to, by),
        from <= j <= to,
    ensures
        skip_spaces_back(t, from + by, j + by) == skip_spaces_back(s, from, j) + by,
    decreases j - from,
{
    lemma_space_len_moved(s, t, from, to, by, j);
    let w = space_len_before(s, from, j);
    if w > 0 {
        lemma_skip_spaces_back_moved(s, t, from, to, by, j - w);
    }
}

/// Trimming looks at nothing outside its range: the same bytes elsewhere
/// give the same range, moved.
pub proof fn lemma_trimmed_moved(s: Seq<u8>, t: Seq<u8>, from: int, to: int, by: int)
    requires
        same_bytes(s, t, from, to, by),
        from <= to,
    ensures
        trimmed(t, from + by, to + by) == (
            trimmed(s, from, to).0 + by,
            trimmed(s, from, to).1 + by,
        ),
{
    lemma_skip_spaces_moved(s, t, from, to, by, from);
    lemma_skip_spaces(s, from, to);
    let a = skip_spaces(s, from, to);
    if a < to {
        assert(same_bytes(s, t, a, to, by));
        lemma_skip_spaces_back_moved(s, t, a, to, by, to);
    }
}

/// Whether `x` is empty or neither starts nor ends with whitespace.
pub open spec fn is_trimmed(x: Seq<u8>) -> bool {
    trimmed(x, 0, x.len() as int) == (0int, x.len() as int)
}

/// Skipping backwards from `j` does not reach `a` where no whitespace
/// character starts at `a`.
proof fn lemma_skip_spaces_back_stops(s: Seq<u8>, a: int, to: int, j: int)
    requires
        a < j <= to,
        space_len_at(s, a, to) == 0,
    ensures
        skip_spaces_back(s, a, j) > a,
    decreases j - a,
{
    let w = space_len_before(s, a, j);
    if w > 0 && j - w > a {
        lemma_skip_spaces_back_stops(s, a, to, j - w);
    }
}

/// What trimming leaves is trimmed, and is not empty unless the range was
/// all whitespace.
pub proof fn lemma_trimmed_is_trimmed(s: Seq<u8>, from: int, to: int)
    requires
        0 <= from <= to <= s.len(),
    ensures
        is_trimmed(s.subrange(trimmed(s, from, to).0, trimmed(s, from, to).1)),
        from <= trimmed(s, from, to).0 <= trimmed(s, from, to).1 <= to,
{
    lemma_trimmed_range(s, from, to);
    lemma_skip_spaces(s, from, to);
    let a = skip_spaces(s, from, to);
    let (start, end) = trimmed(s, from, to);
    let x = s.subrange(start, end);
    if a < to {
        lemma_skip_spaces_back(s, a, to);
        lemma_skip_spaces_back_stops(s, a, to, to);
        assert(same_bytes(s, x, start, end, -start));
        lemma_space_len_moved(s, x, start, end, -start, start);
        lemma_space_len_moved(s, x, start, end, -start, end);
        assert(space_len_at(s, start, end) == 0);
        assert(space_len_at(x, 0, x.len() as int) == 0);
        assert(space_len_before(x, 0, x.len() as int) == 0);
    }
}

/// A text that is trimmed and not empty is what trimming leaves of it,
/// wherever it stands.
pub proof fn lemma_trimmed_of_trimmed(s: Seq<u8>, from: int, to: int)
    requires
        0 <= from < to <= s.len(),
        is_trimmed(s.subrange(from, to)),
    ensures
        trimmed(s, from, to) == (from, to),
{
    let x = s.subrange(from, to);
    assert(same_bytes(x, s, 0, x.len() as int, from));
    lemma_trimmed_moved(x, s, 0, x.len() as int, from);
}

/// The encoding of a character and more characters is the encoding of the
/// character and then that of the others.
pub proof fn lemma_encode_first(chars: Seq<char>)
    requires
        chars.len() > 0,
    ensures
        encode_utf8(chars) == encoded(chars[0]) + encode_utf8(chars.drop_first()),
        encoded(chars[0]).len() >= 1,
{
    lemma_encode_concat(seq![chars[0]], chars.drop_first());
    assert(chars =~= seq![chars[0]] + chars.drop_first());
    lemma_encoded(chars[0]);
}

/// The encoding of characters and one more is the encoding of the
/// characters and then that of the last.
pub proof fn lemma_encode_last(chars: Seq<char>)
    requires
        chars.len() > 0,
    ensures
        encode_utf8(chars) == encode_utf8(chars.drop_last()) + encoded(chars.last()),
        encoded(chars.last()).len() >= 1,
{
    lemma_encode_concat(chars.drop_last(), seq![chars.last()]);
    assert(chars =~= chars.drop_last() + seq![chars.last()]);
    lemma_encoded(chars.last());
}

/// Skipping whitespace in the encoding of `chars` passes the whitespace
/// characters that `chars` starts with, and no more.
pub proof fn lemma_skip_spaces_chars(chars: Seq<char>)
    ensures
        leading_spaces(chars) <= chars.len(),
        skip_spaces(encode_utf8(chars), 0, encode_utf8(chars).len() as int) == encode_utf8(
            chars.subrange(0, leading_spaces(chars) as int),
        ).len(),
    decreases chars.len(),
{
    let s = encode_utf8(chars);
    if chars.len() == 0 {
        assert(chars.subrange(0, 0) =~= chars);
    } else {
        let c = chars[0];
        let rest = chars.drop_first();
        let e = encoded(c);
        let r = encode_utf8(rest);
        lemma_encode_first(chars);
        assert(s.subrange(0, e.len() as int) =~= e);
        lemma_space_at_char(s, 0, s.len() as int, c);
        lemma_skip_spaces_chars(rest);
        if is_space_char(c) {
            let k = leading_spaces(rest) as int;
            assert(same_bytes(r, s, 0, r.len() as int, e.len() as int)) by {
                let by = e.len() as int;
                assert forall|i: int| 0 <= i < r.len() implies r[i] == #[trigger] s[i + by] by {
                    assert((e + r)[i + by] == r[i]);
                }
            }
            lemma_skip_spaces_moved(r, s, 0, r.len() as int, e.len() as int, 0);
            assert(chars.subrange(0, 1 + k) =~= seq![c] + rest.subrange(0, k));
            lemma_encode_concat(seq![c], rest.subrange(0, k));
        } else {
            assert(chars.subrange(0, 0) =~= Seq::<char>::empty());
        }
    }
}

/// Skipping whitespace backwards in the encoding of `chars`, which stands
/// after `head`, passes the whitespace characters that `chars` ends with, and
/// no more.
pub proof fn lemma_skip_spaces_back_chars(head: Seq<u8>, chars: Seq<char>)
    ensures
        trailing_spaces(chars) <= chars.len(),
        skip_spaces_back(
            head + encode_utf8(chars),
            head.len() as int,
            (head + encode_utf8(chars)).len() as int,
        ) == head.len() + encode_utf8(
            chars.subrange(0, chars.len() - trailing_spaces(chars)),
        ).len(),
    decreases chars.len(),
{
    let s = head + encode_utf8(chars);
    let from = head.len() as int;
    if chars.len() == 0 {
        assert(chars.subrange(0, 0) =~= chars);
    } else {
        let c = chars.last();
        let init = chars.drop_last();
        let e = encoded(c);
        let j = s.len() as int;
        lemma_encode_last(chars);
        assert(s =~= head + encode_utf8(init) + e);
        assert(s.subrange(j - e.len(), j) =~= e);
        lemma_space_before_char(s, from, j, c);
        lemma_skip_spaces_back_chars(head, init);
        if is_space_char(c) {
            let t = head + encode_utf8(init);
            assert(same_bytes(t, s, from, t.len() as int, 0)) by {
                assert forall|i: int| from <= i < t.len() implies t[i] == #[trigger] s[i + 0] by {
                    assert((t + e)[i] == t[i]);
                }
            }
            lemma_skip_spaces_back_moved(t, s, from, t.len() as int, 0, t.len() as int);
            assert(chars.subrange(0, chars.len() - trailing_spaces(chars)) =~= init.subrange(
                0,
                init.len() - trailing_spaces(init),
            ));
        } else {
            assert(chars.subrange(0, chars.len() as int) =~= chars);
        }
    }
}

/// The whitespace that a text ends with is that of its part after a
/// position where a character other than whitespace stands.
pub proof fn lemma_trailing_spaces_of_tail(chars: Seq<char>, k: int)
    requires
        0 <= k < chars.len(),
        !is_space_char(chars[k]),
    ensures
        trailing_spaces(chars) == trailing_spaces(chars.subrange(k, chars.len() as int)),
        trailing_spaces(chars) < chars.len() - k,
    decreases chars.len(),
{
    let tail = chars.subrange(k, chars.len() as int);
    assert(tail.last() == chars.last());
    if is_space_char(chars.last()) {
        assert(k < chars.len() - 1);
        let init = chars.drop_last();
        lemma_trailing_spaces_of_tail(init, k);
        assert(tail.drop_last() =~= init.subrange(k, init.len() as int));
    }
}

/// Where whitespace ends in `chars`, a character other than whitespace stands.
pub proof fn lemma_leading_spaces_end(chars: Seq<char>)
    ensures
        leading_spaces(chars) <= chars.len(),
        leading_spaces(chars) < chars.len() ==> !is_space_char(
            chars[leading_spaces(chars) as int],
        ),
    decreases chars.len(),
{
    if chars.len() > 0 && is_space_char(chars[0]) {
        lemma_leading_spaces_end(chars.drop_first());
    }
}

/// The encoding of characters has at least as many bytes as there are characters.
pub proof fn lemma_encode_len(chars: Seq<char>)
    ensures
        encode_utf8(chars).len() >= chars.len(),
    decreases chars.len(),
{
    if chars.len() > 0 {
        lemma_encode_first(chars);
        lemma_encode_len(chars.drop_first());
    }
}

/// Trimming the encoding of a text leaves the encoding of the text without
/// the whitespace characters that it starts and ends with.
pub proof fn law_trim_is_trim_of_chars(chars: Seq<char>)
    ensures
        ({
            let s = encode_utf8(chars);
            let r = trimmed(s, 0, s.len() as int);
            s.subrange(r.0, r.1) == encode_utf8(trimmed_chars(chars))
        }),
{
    let s = encode_utf8(chars);
    let n = chars.len() as int;
    let a = leading_spaces(chars) as int;
    lemma_skip_spaces_chars(chars);
    lemma_leading_spaces_end(chars);
    let pre = chars.subrange(0, a);
    let mid = chars.subrange(a, n);
    assert(chars =~= pre + mid);
    lemma_encode_concat(pre, mid);
    let head = encode_utf8(pre);
    lemma_encode_len(mid);
    if a >= n {
        assert(mid =~= Seq::<char>::empty());
        assert(s.subrange(0, 0) =~= Seq::<u8>::empty());
    } else {
        lemma_trailing_spaces_of_tail(chars, a);
        let b = trailing_spaces(chars) as int;
        lemma_skip_spaces_back_chars(head, mid);
        let keep = mid.subrange(0, mid.len() - b);
        let tail = mid.subrange(mid.len() - b, mid.len() as int);
        assert(mid =~= keep + tail);
        lemma_encode_concat(keep, tail);
        assert(keep =~= chars.subrange(a, n - b));
        assert(s =~= head + encode_utf8(keep) + encode_utf8(tail));
        assert(s.subrange(head.len() as int, head.len() + encode_utf8(keep).len() as int)
            =~= encode_utf8(keep));
    }
}

/// Trimming a range of UTF-8 text between character boundaries leaves the
/// characters of the range without the whitespace characters that they
/// start and end with.
pub proof fn law_trim_of_range(s: Seq<u8>, from: int, to: int)
    requires
        valid_utf8(s),
        0 <= from <= to <= s.len(),
        is_char_boundary(s, from),
        is_char_boundary(s, to),
    ensures
        ({
            let r = trimmed(s, from, to);
            &&& valid_utf8(s.subrange(from, to))
            &&& s.subrange(r.0, r.1) == encode_utf8(
                trimmed_chars(decode_utf8(s.subrange(from, to))),
            )
        }),
{
    let x = s.subrange(from, to);
    let head = s.subrange(0, to);
    valid_utf8_split(s, to);
    if from < to {
        is_char_boundary_iff_not_is_continuation_byte(s, from);
        assert(head[from] == s[from]);
        is_char_boundary_iff_not_is_continuation_byte(head, from);
    } else {
        is_char_boundary_start_end_of_seq(head);
    }
    valid_utf8_split(head, from);
    assert(head.subrange(from, head.len() as int) =~= x);
    let chars = decode_utf8(x);
    decode_utf8_encode_utf8(x);
    law_trim_is_trim_of_chars(chars);
    assert(same_bytes(x, s, 0, x.len() as int, from));
    lemma_trimmed_moved(x, s, 0, x.len() as int, from);
    lemma_trimmed_range(x, 0, x.len() as int);
    let r = trimmed(x, 0, x.len() as int);
    lemma_subrange_moved(x, s, 0, x.len() as int, from, r.0, r.1);
}

/// The first position in `from..to` that holds `b`, or `to` if there is none.
pub fn find_byte(bytes: &[u8], b: u8, from: usize, to: usize) -> (at: usize)
    requires
        from <= to <= bytes@.len(),
    ensures
        at == first_at(bytes@, b, from as int, to as int),
        from <= at <= to,
{
    let mut i: usize = from;
    while i < to && bytes[i] != b
        invariant
            from <= i <= to <= bytes@.len(),
            first_at(bytes@, b, from as int, to as int) == first_at(bytes@, b, i as int, to as int),
        decreases to - i,
    {
        i = i + 1;
    }
    i
}

/// The length of the whitespace character that starts at `i`, or 0.
pub fn space_at(bytes: &[u8], i: usize, to: usize) -> (w: usize)
    requires
        i <= to <= bytes@.len(),
    ensures
        w == space_len_at(bytes@, i as int, to as int),
        w <= 3,
        i + w <= to,
{
    let room: usize = to - i;
    if room >= 1 && ((0x09 <= bytes[i] && bytes[i] <= 0x0D) || bytes[i] == 0x20) {
        1
    } else if room >= 2 && bytes[i] == 0xC2 && (bytes[i + 1] == 0x85 || bytes[i + 1] == 0xA0) {
        2
    } else if room >= 3 && space_triple(bytes[i], bytes[i + 1], bytes[i + 2]) {
        3
    } else {
        0
    }
}

/// The length of the whitespace character that ends at `j`, or 0.
pub fn space_before(bytes: &[u8], from: usize, j: usize) -> (w: usize)
    requires
        from <= j <= bytes@.len(),
    ensures
        w == space_len_before(bytes@, from as int, j as int),
        w <= 3,
        from + w <= j,
{
    let room: usize = j - from;
    if room >= 1 && ((0x09 <= bytes[j - 1] && bytes[j - 1] <= 0x0D) || bytes[j - 1] == 0x20) {
        1
    } else if room >= 2 && bytes[j - 2] == 0xC2 && (bytes[j - 1] == 0x85 || bytes[j - 1]
        == 0xA0) {
        2
    } else if room >= 3 && space_triple(bytes[j - 3], bytes[j - 2], bytes[j - 1]) {
        3
    } else {
        0
    }
}

/// Whether three bytes are a whitespace character of three bytes.
fn space_triple(a: u8, b: u8, c: u8) -> (r: bool)
    ensures
        r == is_space_triple(a, b, c),
{
    (a == 0xE1 && b == 0x9A && c == 0x80) || (a == 0xE2 && b == 0x80 && ((0x80 <= c && c <= 0x8A)
        || c == 0xA8 || c == 0xA9 || c == 0xAF)) || (a == 0xE2 && b == 0x81 && c == 0x9F) || (a
        == 0xE3 && b == 0x80 && c == 0x80)
}

/// The range `from..to` without its leading and trailing whitespace.
pub fn trim(bytes: &[u8], from: usize, to: usize) -> (r: (usize, usize))
    requires
        from <= to <= bytes@.len(),
    ensures
        (r.0 as int, r.1 as int) == trimmed(bytes@, from as int, to as int),
        from <= r.0 <= r.1 <= to,
{
    let mut a: usize = from;
    let mut w: usize = space_at(bytes, a, to);
    while w > 0
        invariant
            from <= a <= to <= bytes@.len(),
            w == space_len_at(bytes@, a as int, to as int),
            a + w <= to,
            skip_spaces(bytes@, from as int, to as int) == skip_spaces(bytes@, a as int, to as int),
        decreases to - a,
    {
        a = a + w;
        w = space_at(bytes, a, to);
    }
    if a >= to {
        return (from, from);
    }
    let mut b: usize = to;
    let mut v: usize = space_before(bytes, a, b);
    while v > 0
        invariant
            a <= b <= to <= bytes@.len(),
            v == space_len_before(bytes@, a as int, b as int),
            a + v <= b,
            skip_spaces_back(bytes@, a as int, to as int) == skip_spaces_back(
                bytes@,
                a as int,
                b as int,
            ),
        decreases b - a,
    {
        b = b - v;
        v = space_before(bytes, a, b);
    }
    (a, b)
}

/// Whether `from..to` of `bytes` holds exactly `word`.
pub fn range_eq(bytes: &[u8], from: usize, to: usize, word: &[u8]) -> (r: bool)
    requires
        from <= to <= bytes@.len(),
    ensures
        r == (bytes@.subrange(from as int, to as int) == word@),
{
    let n: usize = to - from;
    if n != word.len() {
        return false;
    }
    let mut i: usize = 0;
    while i < n
        invariant
            from <= to <= bytes@.len(),
            n == to - from,
            n == word@.len(),
            i <= n,
            forall|k: int| 0 <= k < i ==> bytes@[from + k] == word@[k],
        decreases n - i,
    {
        if bytes[from + i] != word[i] {
            assert(bytes@.subrange(from as int, to as int)[i as int] != word@[i as int]);
            return false;
        }
        i = i + 1;
    }
    assert(bytes@.subrange(from as int, to as int) =~= word@);
    true
}

/// The lower-case form of an ASCII letter; any other byte is unchanged.
pub open spec fn ascii_lower(b: u8) -> u8 {
    if 0x41 <= b <= 0x5A {
        (b + 0x20) as u8
    } else {
        b
    }
}

/// Equality of two texts up to the case of their ASCII letters.
pub open spec fn eq_ignore_case(a: Seq<u8>, b: Seq<u8>) -> bool {
    a.len() == b.len() && forall|i: int| 0 <= i < a.len() ==> ascii_lower(a[i]) == ascii_lower(b[i])
}

/// The lower-case form of an ASCII letter; any other byte is unchanged.
fn to_lower(b: u8) -> (r: u8)
    ensures
        r == ascii_lower(b),
{
    if 0x41 <= b && b <= 0x5A {
        b + 0x20
    } else {
        b
    }
}

/// Whether `from..to` of `bytes` holds `word`, up to the case of ASCII letters.
pub fn range_eq_ignore_case(bytes: &[u8], from: usize, to: usize, word: &[u8]) -> (r: bool)
    requires
        from <= to <= bytes@.len(),
    ensures
        r == eq_ignore_case(bytes@.subrange(from as int, to as int), word@),
{
    let n: usize = to - from;
    if n != word.len() {
        return false;
    }
    let ghost part = bytes@.subrange(from as int, to as int);
    let mut i: usize = 0;
    while i < n
        invariant
            from <= to <= bytes@.len(),
            n == to - from,
            n == word@.len(),
            i <= n,
            part == bytes@.subrange(from as int, to as int),
            forall|k: int| 0 <= k < i ==> ascii_lower(part[k]) == ascii_lower(word@[k]),
        decreases n - i,
    {
        if to_lower(bytes[from + i]) != to_lower(word[i]) {
            assert(ascii_lower(part[i as int]) != ascii_lower(word@[i as int]));
            return false;
        }
        i = i + 1;
    }
    true
}

/// Whether every byte is a decimal digit.
pub open spec fn all_digits(s: Seq<u8>) -> bool {
    forall|i: int| 0 <= i < s.len() ==> 0x30 <= #[trigger] s[i] <= 0x39
}

/// The number that a sequence of decimal digits writes.
pub open spec fn decimal_value(s: Seq<u8>) -> nat
    decreases s.len(),
{
    if s.len() == 0 {
        0
    } else {
        (decimal_value(s.drop_last()) * 10 + (s.last() - 0x30)) as nat
    }
}

/// The decimal digits of `n`, without leading zeros; `0` is written "0".
pub open spec fn decimal_digits(n: nat) -> Seq<u8>
    decreases n,
{
    if n < 10 {
        seq![(0x30 + n) as u8]
    } else {
        decimal_digits(n / 10).push((0x30 + n % 10) as u8)
    }
}

/// Reading the digits that were written for a number gives the number back.
pub proof fn lemma_decimal_round_trip(n: nat)
    ensures
        decimal_digits(n).len() > 0,
        all_digits(decimal_digits(n)),
        decimal_value(decimal_digits(n)) == n,
    decreases n,
{
    if n < 10 {
        let d = decimal_digits(n);
        assert(d.drop_last() =~= Seq::<u8>::empty());
        assert(decimal_value(d.drop_last()) == 0);
    } else {
        lemma_decimal_round_trip(n / 10);
        let d = decimal_digits(n);
        assert(d.drop_last() =~= decimal_digits(n / 10));
    }
}

/// Whether every byte of `from..to` is a decimal digit.
pub fn digits_only(bytes: &[u8], from: usize, to: usize) -> (r: bool)
    requires
        from <= to <= bytes@.len(),
    ensures
        r == all_digits(bytes@.subrange(from as int, to as int)),
{
    let ghost part = bytes@.subrange(from as int, to as int);
    let mut i: usize = from;
    while i < to
        invariant
            from <= i <= to <= bytes@.len(),
            part == bytes@.subrange(from as int, to as int),
            forall|k: int| 0 <= k < i - from ==> 0x30 <= #[trigger] part[k] <= 0x39,
        decreases to - i,
    {
        if !(0x30 <= bytes[i] && bytes[i] <= 0x39) {
            assert(part[i - from] == bytes@[i as int]);
            return false;
        }
        i = i + 1;
    }
    true
}

/// The number written by the digits in `from..to`, or `u64::MAX` if it is larger.
pub fn saturating_decimal(bytes: &[u8], from: usize, to: usize) -> (n: u64)
    requires
        from <= to <= bytes@.len(),
        all_digits(bytes@.subrange(from as int, to as int)),
    ensures
        n as nat == if decimal_value(bytes@.subrange(from as int, to as int)) <= u64::MAX {
            decimal_value(bytes@.subrange(from as int, to as int))
        } else {
            u64::MAX as nat
        },
{
    let ghost part = bytes@.subrange(from as int, to as int);
    let mut n: u64 = 0;
    let mut i: usize = from;
    while i < to
        invariant
            from <= i <= to <= bytes@.len(),
            part == bytes@.subrange(from as int, to as int),
            all_digits(part),
            n as nat == decimal_value(part.subrange(0, i - from)),
        decreases to - i,
    {
        assert(part[i - from] == bytes@[i as int]);
        let d: u64 = (bytes[i] - 0x30) as u64;
        proof {
            let next = part.subrange(0, i - from + 1);
            assert(next.drop_last() =~= part.subrange(0, i - from));
            assert(next.last() == part[i - from]);
            assert(part[i - from] == bytes@[i as int]);
            assert(decimal_value(next) == n * 10 + d);
        }
        if n > (u64::MAX - d) / 10 {
            proof {
                lemma_decimal_grows(part, i - from + 1);
            }
            return u64::MAX;
        }
        n = n * 10 + d;
        i = i + 1;
    }
    assert(part.subrange(0, to - from) =~= part);
    n
}

/// A longer run of digits writes a number at least as large as each of its prefixes.
pub proof fn lemma_decimal_grows(s: Seq<u8>, k: int)
    requires
        all_digits(s),
        0 <= k <= s.len(),
    ensures
        decimal_value(s.subrange(0, k)) <= decimal_value(s),
    decreases s.len() - k,
{
    if k == s.len() {
        assert(s.subrange(0, k) =~= s);
    } else {
        lemma_decimal_grows(s, k + 1);
        let next = s.subrange(0, k + 1);
        assert(next.drop_last() =~= s.subrange(0, k));
        assert(0x30 <= next.last() <= 0x39) by {
            assert(next.last() == s[k]);
        }
    }
}

/// The part `from..to` of `s`, which must lie between character boundaries.
pub fn slice<'a>(s: &'a str, from: usize, to: usize) -> (r: &'a str)
    requires
        from <= to <= s.spec_bytes().len(),
        is_char_boundary(s.spec_bytes(), from as int),
        is_char_boundary(s.spec_bytes(), to as int),
    ensures
        r.spec_bytes() == s.spec_bytes().subrange(from as int, to as int),
{
    proof {
        encode_utf8_valid_utf8(s@);
    }
    let (head, _) = s.split_at(to);
    proof {
        let all = s.spec_bytes();
        let h = all.subrange(0, to as int);
        assert(head.spec_bytes() == h);
        valid_utf8_split(all, to as int);
        if from < to {
            is_char_boundary_iff_not_is_continuation_byte(all, from as int);
            assert(h[from as int] == all[from as int]);
            is_char_boundary_iff_not_is_continuation_byte(h, from as int);
        } else {
            is_char_boundary_start_end_of_seq(h);
        }
    }
    let (_, r) = head.split_at(from);
    proof {
        let all = s.spec_bytes();
        let h = all.subrange(0, to as int);
        assert(h.subrange(from as int, h.len() as int) =~= all.subrange(from as int, to as int));
    }
    r
}

/// The UTF-8 encoding of a concatenation is the concatenation of the encodings.
pub proof fn lemma_encode_concat(a: Seq<char>, b: Seq<char>)
    ensures
        encode_utf8(a + b) == encode_utf8(a) + encode_utf8(b),
    decreases a.len(),
{
    if a.len() == 0 {
        assert(a + b =~= b);
        assert(encode_utf8(a) + encode_utf8(b) =~= encode_utf8(b));
    } else {
        lemma_encode_concat(a.drop_first(), b);
        assert((a + b).drop_first() =~= a.drop_first() + b);
        assert((a + b)[0] == a[0]);
        assert(encode_utf8(a + b) =~= encode_utf8(a) + encode_utf8(b));
    }
}

/// Text of ASCII characters is encoded one byte per character.
pub proof fn lemma_ascii_bytes(s: &str)
    requires
        is_ascii_chars(s@),
    ensures
        s.spec_bytes() =~= Seq::new(s@.len(), |i: int| s@[i] as u8),
{
    is_ascii_chars_encode_utf8(s@);
}

} // verus!
