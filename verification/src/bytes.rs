//! Byte classes, maximal runs of bytes of one class, and the search for the
//! end of a block comment.

use vstd::prelude::*;

verus! {

/// `\n`
pub const NEWLINE: u8 = 0x0a;

/// `!`
pub const BANG: u8 = 0x21;

/// `"`
pub const QUOTE: u8 = 0x22;

/// `&`
pub const AMPERSAND: u8 = 0x26;

/// `(`
pub const LEFT_PAREN: u8 = 0x28;

/// `)`
pub const RIGHT_PAREN: u8 = 0x29;

/// `*`
pub const STAR: u8 = 0x2a;

/// `+`
pub const PLUS: u8 = 0x2b;

/// `,`
pub const COMMA: u8 = 0x2c;

/// `-`
pub const MINUS: u8 = 0x2d;

/// `.`
pub const POINT: u8 = 0x2e;

/// `/`
pub const SLASH: u8 = 0x2f;

/// `;`
pub const SEMICOLON: u8 = 0x3b;

/// `<`
pub const LESS: u8 = 0x3c;

/// `=`
pub const EQUALS: u8 = 0x3d;

/// `>`
pub const GREATER: u8 = 0x3e;

/// `E`
pub const UPPER_E: u8 = 0x45;

/// `e`
pub const LOWER_E: u8 = 0x65;

/// `{`
pub const LEFT_BRACE: u8 = 0x7b;

/// `|`
pub const BAR: u8 = 0x7c;

/// `}`
pub const RIGHT_BRACE: u8 = 0x7d;

/// `0` to `9`.
pub open spec fn is_digit(b: u8) -> bool {
    0x30 <= b <= 0x39
}

/// `a` to `z` or `A` to `Z`.
pub open spec fn is_letter(b: u8) -> bool {
    (0x41 <= b <= 0x5a) || (0x61 <= b <= 0x7a)
}

/// A byte of the form `10xxxxxx`, which continues a multi-byte character.
pub open spec fn is_continuation(b: u8) -> bool {
    0x80 <= b <= 0xbf
}

/// The sets of bytes over which the scanner takes maximal runs.
#[derive(Clone, Copy, Debug)]
pub enum ByteClass {
    /// `0` to `9`.
    Digit,
    /// Letters and digits.
    Alnum,
    /// Space, tab and form feed.
    Blank,
    /// Everything but a newline.
    LineBody,
    /// Everything but a newline and a double quote.
    StringBody,
    /// The continuation bytes of a multi-byte character.
    Continuation,
}

impl ByteClass {
    /// Membership of a byte in the class.
    pub open spec fn has(self, b: u8) -> bool {
        match self {
            ByteClass::Digit => is_digit(b),
            ByteClass::Alnum => is_digit(b) || is_letter(b),
            ByteClass::Blank => b == 0x20 || b == 0x09 || b == 0x0c,
            ByteClass::LineBody => b != NEWLINE,
            ByteClass::StringBody => b != NEWLINE && b != QUOTE,
            ByteClass::Continuation => is_continuation(b),
        }
    }

    /// Tests whether `b` belongs to the class.
    pub fn contains(self, b: u8) -> (r: bool)
        ensures
            r == self.has(b),
    {
        match self {
            ByteClass::Digit => 0x30 <= b && b <= 0x39,
            ByteClass::Alnum => (0x30 <= b && b <= 0x39) || (0x41 <= b && b <= 0x5a) || (0x61 <= b
                && b <= 0x7a),
            ByteClass::Blank => b == 0x20 || b == 0x09 || b == 0x0c,
            ByteClass::LineBody => b != NEWLINE,
            ByteClass::StringBody => b != NEWLINE && b != QUOTE,
            ByteClass::Continuation => 0x80 <= b && b <= 0xbf,
        }
    }
}

/// True when position `i` of `s` exists and holds the byte `b`.
pub open spec fn byte_is(s: Seq<u8>, i: int, b: u8) -> bool {
    0 <= i < s.len() && s[i] == b
}

/// True when position `i` of `s` exists and holds a byte of class `c`.
pub open spec fn class_at(s: Seq<u8>, i: int, c: ByteClass) -> bool {
    0 <= i < s.len() && c.has(s[i])
}

/// The end of the maximal run of bytes of class `c` that starts at `i`:
/// the first position at or after `i` that is past the end of `s` or holds a
/// byte outside the class.
pub open spec fn run_end(s: Seq<u8>, i: int, c: ByteClass) -> int
    decreases s.len() - i,
{
    if class_at(s, i, c) {
        run_end(s, i + 1, c)
    } else {
        i
    }
}

/// `run_end` stops at the first byte outside the class and nowhere before it.
pub proof fn lemma_run_end(s: Seq<u8>, i: int, c: ByteClass)
    requires
        0 <= i <= s.len(),
    ensures
        i <= run_end(s, i, c) <= s.len(),
        forall|k: int| i <= k < run_end(s, i, c) ==> c.has(#[trigger] s[k]),
        !class_at(s, run_end(s, i, c), c),
    decreases s.len() - i,
{
    if class_at(s, i, c) {
        lemma_run_end(s, i + 1, c);
    }
}

/// A position `e` reached over bytes of the class and holding none of it is the run's end.
pub proof fn lemma_run_end_is(s: Seq<u8>, i: int, e: int, c: ByteClass)
    requires
        0 <= i <= e <= s.len(),
        forall|k: int| i <= k < e ==> c.has(#[trigger] s[k]),
        !class_at(s, e, c),
    ensures
        run_end(s, i, c) == e,
    decreases e - i,
{
    if i < e {
        lemma_run_end_is(s, i + 1, e, c);
    }
}

/// Walks over the maximal run of bytes of class `c` that starts at `start`.
pub fn skip_run(bytes: &[u8], start: usize, c: ByteClass) -> (end: usize)
    requires
        start <= bytes.len(),
    ensures
        end == run_end(bytes@, start as int, c),
        start <= end <= bytes.len(),
        start < end <==> class_at(bytes@, start as int, c),
{
    proof {
        lemma_run_end(bytes@, start as int, c);
        if start < bytes.len() {
            lemma_run_end(bytes@, start + 1, c);
        }
    }
    let mut i: usize = start;
    while i < bytes.len() && c.contains(bytes[i])
        invariant
            start <= i <= bytes.len(),
            run_end(bytes@, i as int, c) == run_end(bytes@, start as int, c),
        decreases bytes.len() - i,
    {
        i = i + 1;
    }
    i
}

/// True when the two bytes `*/` stand at position `i` of `s`.
pub open spec fn closes_comment(s: Seq<u8>, i: int) -> bool {
    byte_is(s, i, STAR) && byte_is(s, i + 1, SLASH)
}

/// The first position at or after `i` at which `*/` stands, or the length of
/// `s` where it stands nowhere from `i` on.
pub open spec fn comment_close(s: Seq<u8>, i: int) -> int
    decreases s.len() - i,
{
    if 0 <= i < s.len() && !closes_comment(s, i) {
        comment_close(s, i + 1)
    } else {
        i
    }
}

/// `comment_close` stops at the first `*/` and nowhere before it.
pub proof fn lemma_comment_close(s: Seq<u8>, i: int)
    requires
        0 <= i <= s.len(),
    ensures
        i <= comment_close(s, i) <= s.len(),
        forall|k: int| i <= k < comment_close(s, i) ==> !#[trigger] closes_comment(s, k),
        comment_close(s, i) == s.len() || closes_comment(s, comment_close(s, i)),
    decreases s.len() - i,
{
    if i < s.len() && !closes_comment(s, i) {
        lemma_comment_close(s, i + 1);
    }
}

/// A position `e` at which `*/` stands, with no `*/` from `i` up to it, is
/// where `comment_close` stops.
pub proof fn lemma_comment_close_is(s: Seq<u8>, i: int, e: int)
    requires
        0 <= i <= e,
        closes_comment(s, e),
        forall|k: int| i <= k < e ==> !#[trigger] closes_comment(s, k),
    ensures
        comment_close(s, i) == e,
    decreases e - i,
{
    if i < e {
        lemma_comment_close_is(s, i + 1, e);
    }
}

/// Walks from `start` to the first `*/`, or to the end of the text.
pub fn find_comment_close(bytes: &[u8], start: usize) -> (end: usize)
    requires
        start <= bytes.len(),
    ensures
        end == comment_close(bytes@, start as int),
        start <= end <= bytes.len(),
{
    let mut i: usize = start;
    while i < bytes.len() && !(bytes[i] == STAR && i + 1 < bytes.len() && bytes[i + 1] == SLASH)
        invariant
            start <= i <= bytes.len(),
            comment_close(bytes@, i as int) == comment_close(bytes@, start as int),
        decreases bytes.len() - i,
    {
        i = i + 1;
    }
    i
}

/// Compares the bytes from `start` to `end` with `word`.
pub fn spells(bytes: &[u8], start: usize, end: usize, word: &[u8]) -> (r: bool)
    requires
        start <= end <= bytes.len(),
    ensures
        r == (bytes@.subrange(start as int, end as int) == word@),
{
    let ghost w = bytes@.subrange(start as int, end as int);
    if end - start != word.len() {
        return false;
    }
    let mut k: usize = 0;
    while k < word.len()
        invariant
            start <= end <= bytes.len(),
            end - start == word.len(),
            k <= word.len(),
            w == bytes@.subrange(start as int, end as int),
            forall|j: int| 0 <= j < k ==> w[j] == word@[j],
        decreases word.len() - k,
    {
        if bytes[start + k] != word[k] {
            assert(w[k as int] != word@[k as int]);
            return false;
        }
        k = k + 1;
    }
    assert(w =~= word@);
    true
}

} // verus!
