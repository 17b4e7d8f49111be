//! The forms of the lexemes, one for each category, and the rule by which the
//! scanner chooses among them: the longest match wins, and among the forms
//! that match the same bytes a fixed spelling wins over an identifier.

use crate::bytes::{
    byte_is, class_at, closes_comment, lemma_comment_close, lemma_comment_close_is,
    lemma_run_end, lemma_run_end_is, run_end, ByteClass, LOWER_E, MINUS, PLUS, POINT, QUOTE,
    SLASH, STAR, UPPER_E,
};
use crate::lexeme::{
    false_word, lemma_keyword_before_identifier, lemma_lexeme_end, lexeme_at, spelling,
};
use crate::token::C1Token;
use vstd::prelude::*;

verus! {

/// The bytes of `s` from `i` up to `j` are one or more bytes of class `c`.
pub open spec fn is_run(s: Seq<u8>, i: int, j: int, c: ByteClass) -> bool {
    &&& 0 <= i < j <= s.len()
    &&& forall|k: int| i <= k < j ==> c.has(#[trigger] s[k])
}

/// `("e"|"E") ("+"|"-")? digits`
pub open spec fn is_exponent(s: Seq<u8>, i: int, j: int) -> bool {
    &&& (byte_is(s, i, LOWER_E) || byte_is(s, i, UPPER_E))
    &&& (is_run(s, i + 1, j, ByteClass::Digit) || ((byte_is(s, i + 1, PLUS) || byte_is(
        s,
        i + 1,
        MINUS,
    )) && is_run(s, i + 2, j, ByteClass::Digit)))
}

/// `digits "." digits`, or `"." digits exponent?`, or `digits exponent`
pub open spec fn is_float(s: Seq<u8>, i: int, j: int) -> bool {
    ||| exists|d: int|
        #[trigger] is_run(s, i, d, ByteClass::Digit) && byte_is(s, d, POINT) && is_run(
            s,
            d + 1,
            j,
            ByteClass::Digit,
        )
    ||| (byte_is(s, i, POINT) && is_run(s, i + 1, j, ByteClass::Digit))
    ||| (byte_is(s, i, POINT) && exists|d: int|
        #[trigger] is_run(s, i + 1, d, ByteClass::Digit) && is_exponent(s, d, j))
    ||| exists|d: int| #[trigger] is_run(s, i, d, ByteClass::Digit) && is_exponent(s, d, j)
}

/// A double quote, any bytes but newlines and double quotes, a double quote.
pub open spec fn is_string(s: Seq<u8>, i: int, j: int) -> bool {
    &&& 0 <= i
    &&& i + 2 <= j <= s.len()
    &&& s[i] == QUOTE
    &&& s[j - 1] == QUOTE
    &&& forall|k: int| i + 1 <= k < j - 1 ==> ByteClass::StringBody.has(#[trigger] s[k])
}

/// `//` and any bytes but newlines.
pub open spec fn is_line_comment(s: Seq<u8>, i: int, j: int) -> bool {
    &&& 0 <= i
    &&& i + 2 <= j <= s.len()
    &&& s[i] == SLASH
    &&& s[i + 1] == SLASH
    &&& forall|k: int| i + 2 <= k < j ==> ByteClass::LineBody.has(#[trigger] s[k])
}

/// `/*`, any bytes, and the first `*/` after the `/*`.
pub open spec fn is_block_comment(s: Seq<u8>, i: int, j: int) -> bool {
    &&& 0 <= i
    &&& i + 4 <= j <= s.len()
    &&& s[i] == SLASH
    &&& s[i + 1] == STAR
    &&& closes_comment(s, j - 2)
    &&& forall|k: int| i + 2 <= k < j - 2 ==> !#[trigger] closes_comment(s, k)
}

/// A letter, then letters and digits.
pub open spec fn is_identifier(s: Seq<u8>, i: int, j: int) -> bool {
    is_run(s, i, j, ByteClass::Alnum) && !ByteClass::Digit.has(s[i])
}

/// The bytes of `s` from `i` up to `j` have the form of a lexeme of category `k`.
/// Nothing has the form of an `Error`.
pub open spec fn has_form(k: C1Token, s: Seq<u8>, i: int, j: int) -> bool {
    &&& 0 <= i < j <= s.len()
    &&& match k {
        C1Token::ConstInt => is_run(s, i, j, ByteClass::Digit),
        C1Token::ConstFloat => is_float(s, i, j),
        C1Token::ConstBoolean => s.subrange(i, j) == spelling(k) || s.subrange(i, j)
            == false_word(),
        C1Token::ConstString => is_string(s, i, j),
        C1Token::Identifier => is_identifier(s, i, j),
        C1Token::CComment => is_block_comment(s, i, j),
        C1Token::CPPComment => is_line_comment(s, i, j),
        C1Token::Whitespace => is_run(s, i, j, ByteClass::Blank),
        C1Token::Error => false,
        _ => s.subrange(i, j) == spelling(k),
    }
}

/// The scanner's choice at position `i` is right for the form `k` that
/// matches the bytes from `i` up to `j`: the lexeme at `i` is no `Error`, it is
/// at least as long as the match, and where it is exactly as long, it has the
/// category `k`, or `k` is `Identifier` and the lexeme is the keyword or the
/// boolean constant that these bytes spell.
pub open spec fn chosen_over(s: Seq<u8>, i: int, j: int, k: C1Token) -> bool {
    let lx = lexeme_at(s, i);
    &&& j <= lx.end
    &&& lx.kind != C1Token::Error
    &&& j == lx.end ==> (lx.kind == k || (k == C1Token::Identifier && (lx.kind.is_keyword()
        || lx.kind == C1Token::ConstBoolean)))
}

/// A run of bytes of one class ends no later than the maximal run from its start.
proof fn lemma_run_covers(s: Seq<u8>, i: int, j: int, c: ByteClass)
    requires
        is_run(s, i, j, c),
    ensures
        j <= run_end(s, i, c),
        run_end(s, i, c) <= s.len(),
        !class_at(s, j, c) ==> run_end(s, i, c) == j,
{
    lemma_run_end(s, i, c);
    let e = run_end(s, i, c);
    if e < j {
        assert(c.has(s[e]));
    }
    if !class_at(s, j, c) {
        lemma_run_end_is(s, i, j, c);
    }
}

/// The words with a fixed spelling are made of letters.
proof fn lemma_spelling_letters(k: C1Token, w: Seq<u8>)
    requires
        k.is_keyword() || k == C1Token::ConstBoolean,
        w == spelling(k) || (k == C1Token::ConstBoolean && w == false_word()),
    ensures
        w.len() >= 2,
        forall|t: int| 0 <= t < w.len() ==> crate::bytes::is_letter(#[trigger] w[t]),
{
    assert forall|t: int| 0 <= t < w.len() implies crate::bytes::is_letter(#[trigger] w[t]) by {
        if t == 0 {
        } else if t == 1 {
        } else if t == 2 {
        } else if t == 3 {
        } else if t == 4 {
        } else if t == 5 {
        }
    }
}

proof fn longest_word(s: Seq<u8>, i: int, j: int, k: C1Token)
    requires
        has_form(k, s, i, j),
        k.is_keyword() || k == C1Token::ConstBoolean || k == C1Token::Identifier,
    ensures
        chosen_over(s, i, j, k),
{
    let w = s.subrange(i, j);
    if k != C1Token::Identifier {
        lemma_spelling_letters(k, w);
        assert forall|t: int| i <= t < j implies ByteClass::Alnum.has(#[trigger] s[t]) by {
            assert(s[t] == w[t - i]);
        }
        assert(s[i] == w[0]);
    }
    assert(is_run(s, i, j, ByteClass::Alnum));
    lemma_run_covers(s, i, j, ByteClass::Alnum);
    if j == lexeme_at(s, i).end && k != C1Token::Identifier {
        lemma_keyword_before_identifier(s, i, k);
    }
}

/// An exponent that starts at `d` ends no later than the one that the scanner finds there.
proof fn lemma_exponent_covers(s: Seq<u8>, d: int, j: int)
    requires
        0 <= d,
        is_exponent(s, d, j),
    ensures
        crate::lexeme::exponent_end(s, d) is Some,
        j <= crate::lexeme::exponent_end(s, d)->0 <= s.len(),
{
    if is_run(s, d + 1, j, ByteClass::Digit) {
        lemma_run_covers(s, d + 1, j, ByteClass::Digit);
    } else {
        lemma_run_covers(s, d + 2, j, ByteClass::Digit);
    }
}

proof fn longest_number(s: Seq<u8>, i: int, j: int, k: C1Token)
    requires
        has_form(k, s, i, j),
        k == C1Token::ConstInt || k == C1Token::ConstFloat,
    ensures
        chosen_over(s, i, j, k),
{
    lemma_lexeme_end(s, i);
    if k == C1Token::ConstInt {
        lemma_run_covers(s, i, j, ByteClass::Digit);
        let d = run_end(s, i, ByteClass::Digit);
        if d + 1 <= s.len() {
            lemma_run_end(s, d + 1, ByteClass::Digit);
        }
        if d + 2 <= s.len() {
            lemma_run_end(s, d + 2, ByteClass::Digit);
        }
    } else if byte_is(s, i, POINT) {
        if is_run(s, i + 1, j, ByteClass::Digit) {
            lemma_run_covers(s, i + 1, j, ByteClass::Digit);
            let d = run_end(s, i + 1, ByteClass::Digit);
            if d + 1 <= s.len() {
                lemma_run_end(s, d + 1, ByteClass::Digit);
            }
            if d + 2 <= s.len() {
                lemma_run_end(s, d + 2, ByteClass::Digit);
            }
        } else {
            let d = choose|d: int|
                #[trigger] is_run(s, i + 1, d, ByteClass::Digit) && is_exponent(s, d, j);
            lemma_run_covers(s, i + 1, d, ByteClass::Digit);
            lemma_exponent_covers(s, d, j);
        }
    } else if exists|d: int|
        #[trigger] is_run(s, i, d, ByteClass::Digit) && byte_is(s, d, POINT) && is_run(
            s,
            d + 1,
            j,
            ByteClass::Digit,
        ) {
        let d = choose|d: int|
            #[trigger] is_run(s, i, d, ByteClass::Digit) && byte_is(s, d, POINT) && is_run(
                s,
                d + 1,
                j,
                ByteClass::Digit,
            );
        lemma_run_covers(s, i, d, ByteClass::Digit);
        lemma_run_covers(s, d + 1, j, ByteClass::Digit);
    } else {
        let d = choose|d: int|
            #[trigger] is_run(s, i, d, ByteClass::Digit) && is_exponent(s, d, j);
        lemma_run_covers(s, i, d, ByteClass::Digit);
        lemma_exponent_covers(s, d, j);
    }
}

proof fn longest_quoted(s: Seq<u8>, i: int, j: int, k: C1Token)
    requires
        has_form(k, s, i, j),
        k == C1Token::ConstString || k == C1Token::CComment || k == C1Token::CPPComment || k
            == C1Token::Slash,
    ensures
        chosen_over(s, i, j, k),
{
    lemma_lexeme_end(s, i);
    if k == C1Token::ConstString {
        if i + 1 < j - 1 {
            assert(is_run(s, i + 1, j - 1, ByteClass::StringBody));
            lemma_run_covers(s, i + 1, j - 1, ByteClass::StringBody);
        }
    } else if k == C1Token::CComment {
        lemma_comment_close_is(s, i + 2, j - 2);
    } else if k == C1Token::CPPComment {
        lemma_run_end(s, i + 2, ByteClass::LineBody);
        if i + 2 < j {
            assert(is_run(s, i + 2, j, ByteClass::LineBody));
            lemma_run_covers(s, i + 2, j, ByteClass::LineBody);
        }
    } else {
        let w = s.subrange(i, j);
        assert(w.len() == 1 && w[0] == s[i]);
        if i + 2 <= s.len() {
            lemma_run_end(s, i + 2, ByteClass::LineBody);
            lemma_comment_close(s, i + 2);
        }
    }
}

proof fn longest_other(s: Seq<u8>, i: int, j: int, k: C1Token)
    requires
        has_form(k, s, i, j),
        !(k.is_keyword() || k == C1Token::ConstBoolean || k == C1Token::Identifier),
        !(k == C1Token::ConstInt || k == C1Token::ConstFloat),
        !(k == C1Token::ConstString || k == C1Token::CComment || k == C1Token::CPPComment || k
            == C1Token::Slash),
    ensures
        chosen_over(s, i, j, k),
{
    lemma_lexeme_end(s, i);
    if k == C1Token::Whitespace {
        lemma_run_covers(s, i, j, ByteClass::Blank);
    } else {
        let w = s.subrange(i, j);
        assert(w[0] == s[i]);
        if w.len() == 2 {
            assert(w[1] == s[i + 1]);
        }
    }
}

/// Longest match, and priority among equal matches: whatever form matches the
/// bytes from `i` up to `j`, the lexeme that the scanner finds at `i` is at
/// least as long, and where it is exactly as long, it has that form's
/// category, but that a keyword or a boolean constant wins over the
/// identifier of the same spelling. So an `Error` lexeme stands only where no
/// form matches at all.
pub proof fn lemma_longest_match(s: Seq<u8>, i: int, j: int, k: C1Token)
    requires
        has_form(k, s, i, j),
    ensures
        chosen_over(s, i, j, k),
{
    if k.is_keyword() || k == C1Token::ConstBoolean || k == C1Token::Identifier {
        longest_word(s, i, j, k);
    } else if k == C1Token::ConstInt || k == C1Token::ConstFloat {
        longest_number(s, i, j, k);
    } else if k == C1Token::ConstString || k == C1Token::CComment || k == C1Token::CPPComment
        || k == C1Token::Slash {
        longest_quoted(s, i, j, k);
    } else {
        longest_other(s, i, j, k);
    }
}

/// Every lexeme but an `Error` has the form of its category.
pub proof fn lemma_lexeme_has_its_form(s: Seq<u8>, i: int)
    requires
        0 <= i < s.len(),
        lexeme_at(s, i).kind != C1Token::Error,
    ensures
        has_form(lexeme_at(s, i).kind, s, i, lexeme_at(s, i).end),
{
    let lx = lexeme_at(s, i);
    let b = s[i];
    lemma_lexeme_end(s, i);
    if ByteClass::Alnum.has(b) && !ByteClass::Digit.has(b) {
        lemma_run_end(s, i, ByteClass::Alnum);
    } else if ByteClass::Digit.has(b) {
        let d = run_end(s, i, ByteClass::Digit);
        lemma_run_end(s, i, ByteClass::Digit);
        assert(is_run(s, i, d, ByteClass::Digit));
        lemma_digit_runs(s, d);
    } else if b == POINT {
        let d = run_end(s, i + 1, ByteClass::Digit);
        lemma_run_end(s, i + 1, ByteClass::Digit);
        assert(is_run(s, i + 1, d, ByteClass::Digit));
        lemma_digit_runs(s, d);
    } else if b == QUOTE {
        lemma_run_end(s, i + 1, ByteClass::StringBody);
    } else if b == SLASH {
        if i + 2 <= s.len() {
            lemma_run_end(s, i + 2, ByteClass::LineBody);
            lemma_comment_close(s, i + 2);
        }
        assert(s.subrange(i, i + 1) =~= seq![SLASH]);
    } else if ByteClass::Blank.has(b) {
        lemma_run_end(s, i, ByteClass::Blank);
    } else {
        assert(s.subrange(i, i + 1) =~= seq![b]);
        if i + 1 < s.len() {
            assert(s.subrange(i, i + 2) =~= seq![b, s[i + 1]]);
        }
    }
}

/// The runs of digits that start one and two bytes after `d` are runs.
proof fn lemma_digit_runs(s: Seq<u8>, d: int)
    requires
        0 <= d <= s.len(),
    ensures
        class_at(s, d + 1, ByteClass::Digit) ==> is_run(
            s,
            d + 1,
            run_end(s, d + 1, ByteClass::Digit),
            ByteClass::Digit,
        ),
        class_at(s, d + 2, ByteClass::Digit) ==> is_run(
            s,
            d + 2,
            run_end(s, d + 2, ByteClass::Digit),
            ByteClass::Digit,
        ),
{
    if d + 1 < s.len() {
        lemma_run_end(s, d + 1, ByteClass::Digit);
        lemma_run_end(s, d + 2, ByteClass::Digit);
    }
    if d + 2 < s.len() {
        lemma_run_end(s, d + 2, ByteClass::Digit);
        lemma_run_end(s, d + 3, ByteClass::Digit);
    }
}

} // verus!
