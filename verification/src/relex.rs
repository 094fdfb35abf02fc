//! Proof that a token is read again as the same token wherever its text
//! stands, as long as what follows it does not run into it.

use vstd::prelude::*;
use crate::lexer::{
    block_end, char_at, digits_end, ends_line, is_digit, is_letter, is_space, is_word, keyword, line_end,
    number_end, punctuation, quoted_end, token_at, word_end,
};
use crate::rules::{dotted, inert_first, joins, sealed, wordish};
use crate::syntax::SyntaxKind;

verus! {

/// The text `b` holds at `q` the `len` characters that `a` holds at `p`.
pub open spec fn same_text(a: Seq<char>, p: nat, b: Seq<char>, q: nat, len: nat) -> bool {
    &&& p + len <= a.len()
    &&& q + len <= b.len()
    &&& forall|i: int| 0 <= i < len ==> a[p + i] == #[trigger] b[q + i]
}

/// Up to where a word runs, it holds nothing else, and it does not go on
/// there.
pub proof fn lemma_word_run(a: Seq<char>, p: nat)
    requires
        p <= a.len(),
    ensures
        p <= word_end(a, p) <= a.len(),
        forall|i: int| p <= i < word_end(a, p) ==> is_word(#[trigger] a[i]),
        !is_word(char_at(a, word_end(a, p))),
    decreases a.len() - p,
{
    if p < a.len() && is_word(a[p as int]) {
        lemma_word_run(a, p + 1);
    }
}

/// Where a word holds nothing else up to `e` and does not go on there, it
/// ends at `e`.
pub proof fn lemma_word_stop(a: Seq<char>, p: nat, e: nat)
    requires
        p <= e <= a.len(),
        forall|i: int| p <= i < e ==> is_word(#[trigger] a[i]),
        !is_word(char_at(a, e)),
    ensures
        word_end(a, p) == e,
    decreases e - p,
{
    if p < e {
        assert(is_word(a[p as int]));
        lemma_word_stop(a, p + 1, e);
    }
}

/// Up to where a run of digits runs, it holds nothing else, and it does not go on
/// there.
pub proof fn lemma_digit_run(a: Seq<char>, p: nat)
    requires
        p <= a.len(),
    ensures
        p <= digits_end(a, p) <= a.len(),
        forall|i: int| p <= i < digits_end(a, p) ==> is_digit(#[trigger] a[i]),
        !is_digit(char_at(a, digits_end(a, p))),
    decreases a.len() - p,
{
    if p < a.len() && is_digit(a[p as int]) {
        lemma_digit_run(a, p + 1);
    }
}

/// Where a run of digits holds nothing else up to `e` and does not go on there, it
/// ends at `e`.
pub proof fn lemma_digit_stop(a: Seq<char>, p: nat, e: nat)
    requires
        p <= e <= a.len(),
        forall|i: int| p <= i < e ==> is_digit(#[trigger] a[i]),
        !is_digit(char_at(a, e)),
    ensures
        digits_end(a, p) == e,
    decreases e - p,
{
    if p < e {
        assert(is_digit(a[p as int]));
        lemma_digit_stop(a, p + 1, e);
    }
}

/// Up to where a line runs, it holds nothing else, and it does not go on
/// there.
pub proof fn lemma_line_run(a: Seq<char>, p: nat)
    requires
        p <= a.len(),
    ensures
        p <= line_end(a, p) <= a.len(),
        forall|i: int| p <= i < line_end(a, p) ==> !ends_line(#[trigger] a[i]),
        line_end(a, p) == a.len() || ends_line(a[line_end(a, p) as int]),
    decreases a.len() - p,
{
    if p < a.len() && !ends_line(a[p as int]) {
        lemma_line_run(a, p + 1);
    }
}

/// Where a line holds nothing else up to `e` and does not go on there, it
/// ends at `e`.
pub proof fn lemma_line_stop(a: Seq<char>, p: nat, e: nat)
    requires
        p <= e <= a.len(),
        forall|i: int| p <= i < e ==> !ends_line(#[trigger] a[i]),
        e == a.len() || ends_line(a[e as int]),
    ensures
        line_end(a, p) == e,
    decreases e - p,
{
    if p < e {
        assert(!ends_line(a[p as int]));
        lemma_line_stop(a, p + 1, e);
    }
}

/// The same word ends at the same place.
pub proof fn lemma_word_agree(a: Seq<char>, p: nat, b: Seq<char>, q: nat, len: nat)
    requires
        same_text(a, p, b, q, len),
        word_end(a, p) == p + len,
        !is_word(char_at(b, q + len)),
    ensures
        word_end(b, q) == q + len,
{
    lemma_word_run(a, p);
    assert forall|i: int| q <= i < q + len implies is_word(#[trigger] b[i]) by {
        assert(b[q + (i - q)] == a[p + (i - q)]);
        assert(is_word(a[p + (i - q)]));
    }
    lemma_word_stop(b, q, q + len);
}

/// The same line ends at the same place.
pub proof fn lemma_line_agree(a: Seq<char>, p: nat, b: Seq<char>, q: nat, len: nat)
    requires
        same_text(a, p, b, q, len),
        line_end(a, p) == p + len,
        q + len == b.len() || ends_line(b[(q + len) as int]),
    ensures
        line_end(b, q) == q + len,
{
    lemma_line_run(a, p);
    assert forall|i: int| q <= i < q + len implies !ends_line(#[trigger] b[i]) by {
        assert(b[q + (i - q)] == a[p + (i - q)]);
        assert(!ends_line(a[p + (i - q)]));
    }
    lemma_line_stop(b, q, q + len);
}

/// The same quoted text is closed at the same place.
pub proof fn lemma_quoted_agree(a: Seq<char>, p: nat, b: Seq<char>, q: nat, len: nat, quote: char)
    requires
        same_text(a, p, b, q, len),
        quoted_end(a, p, quote) == Some(p + len),
    ensures
        quoted_end(b, q, quote) == Some(q + len),
    decreases len,
{
    crate::lexer::lemma_quoted_end_bounds(a, p, quote);
    assert(b[q + 0int] == a[p + 0int]);
    if a[p as int] != quote {
        if a[p as int] == '\\' {
            crate::lexer::lemma_quoted_end_bounds(a, p + 2, quote);
            assert forall|i: int| 0 <= i < len - 2 implies a[p + 2 + i] == #[trigger] b[q + 2 + i] by {
                assert(a[p + (i + 2)] == b[q + (i + 2)]);
            }
            lemma_quoted_agree(a, p + 2, b, q + 2, (len - 2) as nat, quote);
        } else {
            crate::lexer::lemma_quoted_end_bounds(a, p + 1, quote);
            assert forall|i: int| 0 <= i < len - 1 implies a[p + 1 + i] == #[trigger] b[q + 1 + i] by {
                assert(a[p + (i + 1)] == b[q + (i + 1)]);
            }
            lemma_quoted_agree(a, p + 1, b, q + 1, (len - 1) as nat, quote);
        }
    }
}

/// A block comment is closed behind at least two characters.
pub proof fn lemma_block_min(a: Seq<char>, p: nat)
    requires
        p <= a.len(),
    ensures
        block_end(a, p) matches Some(e) ==> p + 2 <= e <= a.len(),
    decreases a.len() - p,
{
    if p + 1 < a.len() && !(a[p as int] == '*' && a[p + 1int] == '/') {
        lemma_block_min(a, p + 1);
    }
}

/// The same block comment is closed at the same place.
pub proof fn lemma_block_agree(a: Seq<char>, p: nat, b: Seq<char>, q: nat, len: nat)
    requires
        same_text(a, p, b, q, len),
        block_end(a, p) == Some(p + len),
    ensures
        block_end(b, q) == Some(q + len),
    decreases len,
{
    crate::lexer::lemma_block_end_bounds(a, p);
    lemma_block_min(a, p);
    assert(b[q + 0int] == a[p + 0int]);
    assert(b[q + 1int] == a[p + 1int]);
    if !(a[p as int] == '*' && a[p + 1int] == '/') {
        crate::lexer::lemma_block_end_bounds(a, p + 1);
        assert forall|i: int| 0 <= i < len - 1 implies a[p + 1 + i] == #[trigger] b[q + 1 + i] by {
            assert(a[p + (i + 1)] == b[q + (i + 1)]);
        }
        lemma_block_agree(a, p + 1, b, q + 1, (len - 1) as nat);
    }
}

/// A character that ends a number in front of it.
pub open spec fn ends_number(c: char) -> bool {
    !is_digit(c) && c != '.' && c != 'e' && c != 'E'
}

/// The character of `b` that stands at `q + i` is the one of `a` at
/// `p + i`, for a place within the same text.
pub proof fn lemma_same_char(a: Seq<char>, p: nat, b: Seq<char>, q: nat, len: nat, i: nat)
    requires
        same_text(a, p, b, q, len),
        i < len,
    ensures
        char_at(b, q + i) == char_at(a, p + i),
        char_at(a, p + i) == a[(p + i) as int],
{
    assert(a[p + (i as int)] == b[q + (i as int)]);
}

/// The same digits, inside the same text, end at the same place.
pub proof fn lemma_digits_within(
    a: Seq<char>,
    p: nat,
    b: Seq<char>,
    q: nat,
    len: nat,
    from: nat,
)
    requires
        same_text(a, p, b, q, len),
        from <= len,
        digits_end(a, p + from) <= p + len,
        !is_digit(char_at(b, q + len)),
    ensures
        digits_end(b, q + from) - q == digits_end(a, p + from) - p,
{
    let e = digits_end(a, p + from);
    lemma_digit_run(a, p + from);
    let w = (e - p) as nat;
    assert forall|i: int| q + from <= i < q + w implies is_digit(#[trigger] b[i]) by {
        assert(b[q + (i - q)] == a[p + (i - q)]);
        assert(is_digit(a[p + (i - q)]));
    }
    if w < len {
        lemma_same_char(a, p, b, q, len, w);
    }
    lemma_digit_stop(b, q + from, q + w);
}

/// The same number ends at the same place.
pub proof fn lemma_number_agree(a: Seq<char>, p: nat, b: Seq<char>, q: nat, len: nat)
    requires
        same_text(a, p, b, q, len),
        number_end(a, p).0 == p + len,
        ends_number(char_at(b, q + len)),
    ensures
        number_end(b, q) == (q + len, number_end(a, p).1),
{
    let c = char_at(b, q + len);
    let whole = digits_end(a, p);
    crate::lexer::lemma_digits_end_bounds(a, p);
    crate::lexer::lemma_digits_end_bounds(a, whole + 1);
    let dot = char_at(a, whole) == '.';
    let mantissa = if dot {
        digits_end(a, whole + 1)
    } else {
        whole
    };
    crate::lexer::lemma_digits_end_bounds(a, mantissa + 1);
    crate::lexer::lemma_digits_end_bounds(a, mantissa + 2);
    assert(whole <= mantissa <= p + len);
    let w = (whole - p) as nat;
    let m = (mantissa - p) as nat;
    lemma_digits_within(a, p, b, q, len, 0);
    assert(digits_end(b, q) == q + w);
    if w < len {
        lemma_same_char(a, p, b, q, len, w);
    }
    assert(char_at(b, q + w) == '.' <==> dot);
    if dot {
        lemma_digits_within(a, p, b, q, len, w + 1);
    }
    // the exponent
    let mark = char_at(a, mantissa);
    let sign = char_at(a, mantissa + 1);
    let signed = if sign == '+' || sign == '-' {
        mantissa + 2
    } else {
        mantissa + 1
    };
    let taken = (mark == 'e' || mark == 'E') && is_digit(char_at(a, signed));
    if taken {
        crate::lexer::lemma_digits_end_bounds(a, signed);
        assert(signed < p + len);
        lemma_same_char(a, p, b, q, len, m);
        lemma_same_char(a, p, b, q, len, m + 1);
        lemma_same_char(a, p, b, q, len, (signed - p) as nat);
        lemma_digits_within(a, p, b, q, len, (signed - p) as nat);
    } else {
        assert(m == len);
    }
}

/// What may follow a token of a kind without running into it: `c` is the
/// character behind the token, and `at_end` says that the text ends there.
pub open spec fn halts(kind: SyntaxKind, c: char, at_end: bool) -> bool {
    if kind == SyntaxKind::LineComment {
        at_end || ends_line(c)
    } else if kind == SyntaxKind::Unknown {
        false
    } else if wordish(kind) {
        !is_word(c)
    } else if kind == SyntaxKind::UnsignedInteger || kind == SyntaxKind::UnsignedReal {
        ends_number(c)
    } else if kind == SyntaxKind::Dot {
        !is_digit(c) && c != '+' && c != '-' && c != '*' && c != '/' && c != '^'
    } else if kind == SyntaxKind::Less {
        c != '=' && c != '>'
    } else if kind == SyntaxKind::Greater || kind == SyntaxKind::Equal || kind
        == SyntaxKind::Colon {
        c != '='
    } else if kind == SyntaxKind::Slash {
        c != '/' && c != '*'
    } else {
        true
    }
}

/// A token is read again as the same token wherever its text stands, if
/// what follows it there does not run into it.
pub proof fn lemma_relex(a: Seq<char>, p: nat, b: Seq<char>, q: nat, len: nat)
    requires
        p < a.len(),
        !is_space(a[p as int]),
        token_at(a, p).1 == p + len,
        token_at(a, p).0 != SyntaxKind::Unknown,
        same_text(a, p, b, q, len),
        halts(token_at(a, p).0, char_at(b, q + len), q + len == b.len()),
    ensures
        token_at(b, q) == (token_at(a, p).0, q + len),
{
    let kind = token_at(a, p).0;
    let c = char_at(a, p);
    let d = char_at(a, p + 1);
    crate::lexer::lemma_token_moves(a, p);
    assert(len >= 1);
    lemma_same_char(a, p, b, q, len, 0);
    assert(char_at(b, q) == c);
    if len >= 2 {
        lemma_same_char(a, p, b, q, len, 1);
        assert(char_at(b, q + 1) == d);
    }
    if c == '/' && d == '/' {
        lemma_line_run(a, p);
        assert(len >= 2) by {
            if line_end(a, p) < p + 2 {
                assert(!ends_line(a[p as int]));
                assert(line_end(a, p) == line_end(a, p + 1));
                assert(!ends_line(a[p + 1int]));
                assert(line_end(a, p + 1) == line_end(a, p + 2));
                crate::lexer::lemma_line_end_bounds(a, p + 2);
            }
        }
        lemma_line_agree(a, p, b, q, len);
    } else if c == '/' && d == '*' {
        lemma_block_min(a, p + 2);
        assert forall|i: int| 0 <= i < len - 2 implies a[p + 2 + i] == #[trigger] b[q + 2 + i] by {
            assert(a[p + (i + 2)] == b[q + (i + 2)]);
        }
        lemma_block_agree(a, p + 2, b, q + 2, (len - 2) as nat);
    } else if c == '"' {
        crate::lexer::lemma_quoted_end_bounds(a, p + 1, '"');
        assert forall|i: int| 0 <= i < len - 1 implies a[p + 1 + i] == #[trigger] b[q + 1 + i] by {
            assert(a[p + (i + 1)] == b[q + (i + 1)]);
        }
        lemma_quoted_agree(a, p + 1, b, q + 1, (len - 1) as nat, '"');
    } else if c == '\'' {
        crate::lexer::lemma_quoted_end_bounds(a, p + 1, '\'');
        assert forall|i: int| 0 <= i < len - 1 implies a[p + 1 + i] == #[trigger] b[q + 1 + i] by {
            assert(a[p + (i + 1)] == b[q + (i + 1)]);
        }
        lemma_quoted_agree(a, p + 1, b, q + 1, (len - 1) as nat, '\'');
    } else if is_letter(c) {
        lemma_keyword_kind(a.subrange(p as int, (p + len) as int));
        lemma_word_agree(a, p, b, q, len);
        let x = a.subrange(p as int, (p + len) as int);
        let y = b.subrange(q as int, (q + len) as int);
        assert forall|i: int| 0 <= i < len implies #[trigger] y[i] == x[i] by {
            assert(a[p + i] == b[q + i]);
        }
        assert(b.subrange(q as int, (q + len) as int) =~= a.subrange(p as int, (p + len) as int));
    } else if is_digit(c) || (c == '.' && is_digit(d)) {
        if c == '.' {
            crate::lexer::lemma_number_moves(a, p);
            lemma_dot_number(a, p);
        }
        lemma_number_agree(a, p, b, q, len);
    } else {
        let (k, n) = punctuation(c, d);
        assert(len == n);
        assert(kind == k);
    }
}

/// The kind of a word is a kind of words.
pub proof fn lemma_keyword_kind(word: Seq<char>)
    ensures
        keyword(word) matches Some(k) ==> wordish(k),
{
}

/// A number that starts with a dot holds a digit behind it.
pub proof fn lemma_dot_number(a: Seq<char>, p: nat)
    requires
        p + 1 < a.len(),
        a[p as int] == '.',
        is_digit(a[p + 1int]),
    ensures
        number_end(a, p).0 >= p + 2,
{
    crate::lexer::lemma_digits_end_bounds(a, p);
    crate::lexer::lemma_digits_end_bounds(a, p + 1);
    let m = digits_end(a, p + 1);
    crate::lexer::lemma_digits_end_bounds(a, m + 1);
    crate::lexer::lemma_digits_end_bounds(a, m + 2);
}

/// What the kind of a token says of its first character.
pub proof fn lemma_kind_char(a: Seq<char>, p: nat)
    requires
        p < a.len(),
        !is_space(a[p as int]),
    ensures
        ({
            let k = token_at(a, p).0;
            let c = a[p as int];
            &&& inert_first(k) ==> c == '(' || c == ')' || c == '[' || c == ']' || c == '{' || c
                == '}' || c == ',' || c == ';' || c == ':'
            &&& dotted(k) ==> c == '.'
            &&& wordish(k) ==> is_letter(c) || c == '\''
            &&& k == SyntaxKind::UnsignedInteger || k == SyntaxKind::UnsignedReal ==> is_digit(c)
                || c == '.'
            &&& sealed(k) && k != SyntaxKind::EqualEqual ==> c != '='
        }),
{
    let c = char_at(a, p);
    let d = char_at(a, p + 1);
    if is_letter(c) {
        let end = word_end(a, p);
        lemma_keyword_kind(a.subrange(p as int, end as int));
    }
}

/// Two tokens that may touch do not run into each other: the first
/// character of the second one ends the first one.
pub proof fn lemma_joins_halts(left: SyntaxKind, b: Seq<char>, q: nat)
    requires
        q < b.len(),
        !is_space(b[q as int]),
        left != SyntaxKind::Unknown,
        joins(left, token_at(b, q).0),
    ensures
        halts(left, b[q as int], false),
{
    lemma_kind_char(b, q);
}

} // verus!
