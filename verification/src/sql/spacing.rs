//! Blanks between tokens.
use vstd::prelude::*;

use crate::sql::lexer::{
    in_word, is_blank, is_digit_byte, number_end, oper_end, quoted, starts_word, tokens_from,
    word_end, TokenView,
};

verus! {

/// Whether a quoted text that is under way at place `i` has a closing quote.
pub open spec fn closes(e: Seq<u8>, i: int) -> bool
    decreases e.len() - i,
{
    if !(0 <= i < e.len()) {
        false
    } else if e[i] == 39 {
        if i + 1 < e.len() && e[i + 1] == 39 {
            closes(e, i + 2)
        } else {
            true
        }
    } else {
        closes(e, i + 1)
    }
}

/// Whether all quoted texts from place `i` on have closing quotes.
pub open spec fn quotes_closed(e: Seq<u8>, i: int) -> bool
    decreases e.len() - i,
{
    if !(0 <= i < e.len()) {
        true
    } else if starts_word(e[i]) {
        let j = word_end(e, i);
        if i < j <= e.len() {
            quotes_closed(e, j)
        } else {
            true
        }
    } else if is_digit_byte(e[i]) {
        let j = number_end(e, i, false);
        if i < j <= e.len() {
            quotes_closed(e, j)
        } else {
            true
        }
    } else if e[i] == 39 {
        let j = quoted(e, i + 1).1;
        if i < j <= e.len() {
            closes(e, i + 1) && quotes_closed(e, j)
        } else {
            true
        }
    } else if is_blank(e[i]) {
        quotes_closed(e, i + 1)
    } else {
        let j = oper_end(e, i);
        if i < j <= e.len() {
            quotes_closed(e, j)
        } else {
            true
        }
    }
}

// -- What stands before ----------------------------------------

proof fn word_moved(x: Seq<u8>, b: Seq<u8>, k: int)
    requires
        0 <= k <= b.len(),
    ensures
        word_end(x + b, x.len() + k) == x.len() + word_end(b, k),
    decreases b.len() - k,
{
    let e = x + b;
    if k < b.len() {
        assert(e[x.len() + k] == b[k]);
        if in_word(b[k]) {
            word_moved(x, b, k + 1);
        }
    }
}

proof fn number_moved(x: Seq<u8>, b: Seq<u8>, k: int, dot: bool)
    requires
        0 <= k <= b.len(),
    ensures
        number_end(x + b, x.len() + k, dot) == x.len() + number_end(b, k, dot),
    decreases b.len() - k,
{
    let e = x + b;
    if k < b.len() {
        assert(e[x.len() + k] == b[k]);
        if is_digit_byte(b[k]) || (b[k] == 46 && !dot) {
            number_moved(x, b, k + 1, dot || b[k] == 46);
        }
    }
}

proof fn quoted_moved(x: Seq<u8>, b: Seq<u8>, k: int)
    requires
        0 <= k,
    ensures
        quoted(x + b, x.len() + k).0 == quoted(b, k).0,
        quoted(x + b, x.len() + k).1 == x.len() + quoted(b, k).1,
    decreases b.len() - k,
{
    let e = x + b;
    if k < b.len() {
        assert(e[x.len() + k] == b[k]);
        if b[k] == 39 {
            if k + 1 < b.len() {
                assert(e[x.len() + k + 1] == b[k + 1]);
                if b[k + 1] == 39 {
                    quoted_moved(x, b, k + 2);
                }
            }
        } else {
            quoted_moved(x, b, k + 1);
        }
    }
}

/// Tokens are the same wherever their bytes stand.
pub proof fn tokens_moved(x: Seq<u8>, b: Seq<u8>, k: int)
    requires
        0 <= k <= b.len(),
    ensures
        tokens_from(x + b, x.len() + k) == tokens_from(b, k),
    decreases b.len() - k,
{
    let e = x + b;
    let n = x.len() as int;
    if k < b.len() {
        assert(e[n + k] == b[k]);
        word_moved(x, b, k);
        number_moved(x, b, k, false);
        quoted_moved(x, b, k + 1);
        if k + 1 < b.len() {
            assert(e[n + k + 1] == b[k + 1]);
        }
        let j = if starts_word(b[k]) {
            word_end(b, k)
        } else if is_digit_byte(b[k]) {
            number_end(b, k, false)
        } else if b[k] == 39 {
            quoted(b, k + 1).1
        } else if is_blank(b[k]) {
            k + 1
        } else {
            oper_end(b, k)
        };
        if k < j <= b.len() {
            assert(e.subrange(n + k, n + j) =~= b.subrange(k, j));
            tokens_moved(x, b, j);
        }
    }
}

// -- What stands behind ----------------------------------------

proof fn word_before_blank(a: Seq<u8>, e: Seq<u8>, i: int)
    requires
        0 <= i <= a.len() < e.len(),
        a == e.take(a.len() as int),
        e[a.len() as int] == 32,
    ensures
        word_end(e, i) == word_end(a, i),
        i <= word_end(a, i) <= a.len(),
    decreases a.len() - i,
{
    if i < a.len() {
        assert(a[i] == e[i]);
        if in_word(a[i]) {
            word_before_blank(a, e, i + 1);
        }
    }
}

proof fn number_before_blank(a: Seq<u8>, e: Seq<u8>, i: int, dot: bool)
    requires
        0 <= i <= a.len() < e.len(),
        a == e.take(a.len() as int),
        e[a.len() as int] == 32,
    ensures
        number_end(e, i, dot) == number_end(a, i, dot),
        i <= number_end(a, i, dot) <= a.len(),
    decreases a.len() - i,
{
    if i < a.len() {
        assert(a[i] == e[i]);
        if is_digit_byte(a[i]) || (a[i] == 46 && !dot) {
            number_before_blank(a, e, i + 1, dot || a[i] == 46);
        }
    }
}

proof fn quoted_before_blank(a: Seq<u8>, e: Seq<u8>, i: int)
    requires
        0 <= i <= a.len() < e.len(),
        a == e.take(a.len() as int),
        e[a.len() as int] == 32,
        closes(a, i),
    ensures
        quoted(e, i) == quoted(a, i),
        i < quoted(a, i).1 <= a.len(),
    decreases a.len() - i,
{
    assert(a[i] == e[i]);
    if i + 1 < a.len() {
        assert(a[i + 1] == e[i + 1]);
    }
    if a[i] == 39 {
        if i + 1 < a.len() && a[i + 1] == 39 {
            quoted_before_blank(a, e, i + 2);
        }
    } else {
        quoted_before_blank(a, e, i + 1);
    }
}

proof fn tokens_before_blank(a: Seq<u8>, b: Seq<u8>, i: int)
    requires
        0 <= i <= a.len(),
        quotes_closed(a, i),
    ensures
        tokens_from(a + seq![32u8] + b, i) == tokens_from(a, i) + tokens_from(b, 0),
    decreases a.len() - i,
{
    let e = a + seq![32u8] + b;
    let n = a.len() as int;
    assert(a =~= e.take(n));
    assert(e[n] == 32);
    if i == n {
        let x = a + seq![32u8];
        assert(e =~= x + b);
        tokens_moved(x, b, 0);
        assert(tokens_from(e, n) == tokens_from(e, n + 1));
        assert(tokens_from(a, n) + tokens_from(b, 0) =~= tokens_from(b, 0));
    } else {
        assert(a[i] == e[i]);
        word_before_blank(a, e, i);
        number_before_blank(a, e, i, false);
        if a[i] == 39 && closes(a, i + 1) {
            quoted_before_blank(a, e, i + 1);
        }
        if i + 1 < n {
            assert(a[i + 1] == e[i + 1]);
        }
        assert(oper_end(e, i) == oper_end(a, i));
        let rest = tokens_from(b, 0);
        if starts_word(a[i]) {
            let j = word_end(a, i);
            assert(in_word(a[i]));
            assert(word_end(a, i) == word_end(a, i + 1));
            word_before_blank(a, e, i + 1);
            tokens_before_blank(a, b, j);
            assert(e.subrange(i, j) =~= a.subrange(i, j));
            let t = seq![TokenView::Ident(a.subrange(i, j))];
            assert(t + (tokens_from(a, j) + rest) =~= (t + tokens_from(a, j)) + rest);
        } else if is_digit_byte(a[i]) {
            let j = number_end(a, i, false);
            assert(number_end(a, i, false) == number_end(a, i + 1, false));
            number_before_blank(a, e, i + 1, false);
            tokens_before_blank(a, b, j);
            assert(e.subrange(i, j) =~= a.subrange(i, j));
            let t = seq![TokenView::Const(a.subrange(i, j))];
            assert(t + (tokens_from(a, j) + rest) =~= (t + tokens_from(a, j)) + rest);
        } else if a[i] == 39 {
            let (v, j) = quoted(a, i + 1);
            quoted_end(a, i + 1);
            tokens_before_blank(a, b, j);
            let t = seq![TokenView::Const(v)];
            assert(t + (tokens_from(a, j) + rest) =~= (t + tokens_from(a, j)) + rest);
        } else if is_blank(a[i]) {
            tokens_before_blank(a, b, i + 1);
        } else {
            let j = oper_end(a, i);
            tokens_before_blank(a, b, j);
            assert(e.subrange(i, j) =~= a.subrange(i, j));
            let t = seq![TokenView::Oper(a.subrange(i, j))];
            assert(t + (tokens_from(a, j) + rest) =~= (t + tokens_from(a, j)) + rest);
        }
    }
}

/// A quoted text ends within the input.
proof fn quoted_end(e: Seq<u8>, i: int)
    requires
        0 <= i <= e.len(),
    ensures
        i <= quoted(e, i).1 <= e.len(),
    decreases e.len() - i,
{
    if i < e.len() {
        if e[i] == 39 {
            if i + 1 < e.len() && e[i + 1] == 39 {
                quoted_end(e, i + 2);
            }
        } else {
            quoted_end(e, i + 1);
        }
    }
}

/// A blank between two texts parts their tokens: the tokens of the whole are those of
/// the first text and then those of the second. An open quote in the first text would
/// take in the blank.
pub proof fn blank_parts_tokens(a: Seq<u8>, b: Seq<u8>)
    requires
        quotes_closed(a, 0),
    ensures
        tokens_from(a + seq![32u8] + b, 0) == tokens_from(a, 0) + tokens_from(b, 0),
{
    tokens_before_blank(a, b, 0);
}

} // verus!
