//! From text to tokens.
use vstd::prelude::*;

use crate::engine::bytes::copy_range;

verus! {

/// A word, a constant or an operator.
#[derive(Debug)]
pub enum TokenType {
    Ident(Vec<u8>),
    Const(Vec<u8>),
    Oper(Vec<u8>),
}

/// A token.
#[verifier::ext_equal]
pub enum TokenView {
    Ident(Seq<u8>),
    Const(Seq<u8>),
    Oper(Seq<u8>),
}

impl View for TokenType {
    type V = TokenView;

    open spec fn view(&self) -> TokenView {
        match self {
            TokenType::Ident(v) => TokenView::Ident(v@),
            TokenType::Const(v) => TokenView::Const(v@),
            TokenType::Oper(v) => TokenView::Oper(v@),
        }
    }
}

/// Tokens.
pub open spec fn token_views(t: Seq<TokenType>) -> Seq<TokenView> {
    Seq::new(t.len(), |i: int| t[i]@)
}

pub open spec fn is_digit_byte(b: u8) -> bool {
    48 <= b <= 57
}

pub open spec fn is_letter_byte(b: u8) -> bool {
    65 <= b <= 90 || 97 <= b <= 122
}

/// Whether a word can start with a byte.
pub open spec fn starts_word(b: u8) -> bool {
    is_letter_byte(b) || b == 95
}

/// Whether a word goes on with a byte.
pub open spec fn in_word(b: u8) -> bool {
    starts_word(b) || is_digit_byte(b)
}

/// Whether a byte is a blank.
pub open spec fn is_blank(b: u8) -> bool {
    b == 32 || b == 9 || b == 10 || b == 12 || b == 13
}

/// Where a word that is under way at place `i` ends.
pub open spec fn word_end(e: Seq<u8>, i: int) -> int
    decreases e.len() - i,
{
    if 0 <= i < e.len() && in_word(e[i]) {
        word_end(e, i + 1)
    } else {
        i
    }
}

/// Where a number that is under way at place `i` ends; it has one point at
/// most.
pub open spec fn number_end(e: Seq<u8>, i: int, seen_dot: bool) -> int
    decreases e.len() - i,
{
    if 0 <= i < e.len() && (is_digit_byte(e[i]) || (e[i] == 46 && !seen_dot)) {
        number_end(e, i + 1, seen_dot || e[i] == 46)
    } else {
        i
    }
}

/// What a quoted text that is under way at place `i` holds, and where it ends. A
/// quote in it is doubled. Without a closing quote it ends with the input.
pub open spec fn quoted(e: Seq<u8>, i: int) -> (Seq<u8>, int)
    decreases e.len() - i,
{
    if !(0 <= i < e.len()) {
        (seq![], i)
    } else if e[i] == 39 {
        if i + 1 < e.len() && e[i + 1] == 39 {
            let (rest, end) = quoted(e, i + 2);
            (seq![39u8] + rest, end)
        } else {
            (seq![], i + 1)
        }
    } else {
        let (rest, end) = quoted(e, i + 1);
        (seq![e[i]] + rest, end)
    }
}

/// Whether two bytes are one operator.
pub open spec fn is_pair(a: u8, b: u8) -> bool {
    (a == 60 && b == 61) || (a == 62 && b == 61) || (a == 33 && b == 61) || (a == 60 && b == 62) || (
    a == 61 && b == 61)
}

/// Where an operator that starts at place `i` ends.
pub open spec fn oper_end(e: Seq<u8>, i: int) -> int {
    if i + 1 < e.len() && is_pair(e[i], e[i + 1]) {
        i + 2
    } else {
        i + 1
    }
}

/// The tokens from place `i` on.
pub open spec fn tokens_from(e: Seq<u8>, i: int) -> Seq<TokenView>
    decreases e.len() - i,
{
    if !(0 <= i < e.len()) {
        seq![]
    } else if starts_word(e[i]) {
        let j = word_end(e, i);
        if i < j <= e.len() {
            seq![TokenView::Ident(e.subrange(i, j))] + tokens_from(e, j)
        } else {
            seq![]
        }
    } else if is_digit_byte(e[i]) {
        let j = number_end(e, i, false);
        if i < j <= e.len() {
            seq![TokenView::Const(e.subrange(i, j))] + tokens_from(e, j)
        } else {
            seq![]
        }
    } else if e[i] == 39 {
        let (v, j) = quoted(e, i + 1);
        if i < j <= e.len() {
            seq![TokenView::Const(v)] + tokens_from(e, j)
        } else {
            seq![]
        }
    } else if is_blank(e[i]) {
        tokens_from(e, i + 1)
    } else {
        let j = oper_end(e, i);
        if i < j <= e.len() {
            seq![TokenView::Oper(e.subrange(i, j))] + tokens_from(e, j)
        } else {
            seq![]
        }
    }
}

fn word_byte(b: u8) -> (r: bool)
    ensures
        r == in_word(b),
{
    (65 <= b && b <= 90) || (97 <= b && b <= 122) || b == 95 || (48 <= b && b <= 57)
}

/// Takes a word.
pub fn lex_ident(e: &[u8], iter: &mut usize) -> (r: TokenType)
    requires
        *old(iter) < e@.len(),
    ensures
        *final(iter) == word_end(e@, *old(iter) as int),
        r@ == TokenView::Ident(e@.subrange(*old(iter) as int, *final(iter) as int)),
        *old(iter) <= *final(iter) <= e@.len(),
        in_word(e@[*old(iter) as int]) ==> *old(iter) < *final(iter),
{
    let start: usize = *iter;
    let mut i: usize = start;
    while i < e.len() && word_byte(e[i])
        invariant
            start <= i <= e@.len(),
            start < e@.len(),
            word_end(e@, start as int) == word_end(e@, i as int),
            i == start || in_word(e@[start as int]),
        decreases e.len() - i,
    {
        i = i + 1;
    }
    *iter = i;
    TokenType::Ident(copy_range(e, start, i))
}

/// Takes a number.
pub fn lex_num(e: &[u8], iter: &mut usize) -> (r: TokenType)
    requires
        *old(iter) < e@.len(),
    ensures
        *final(iter) == number_end(e@, *old(iter) as int, false),
        r@ == TokenView::Const(e@.subrange(*old(iter) as int, *final(iter) as int)),
        *old(iter) <= *final(iter) <= e@.len(),
        is_digit_byte(e@[*old(iter) as int]) ==> *old(iter) < *final(iter),
{
    let start: usize = *iter;
    let mut i: usize = start;
    let mut seen_dot = false;
    while i < e.len() && ((48 <= e[i] && e[i] <= 57) || (e[i] == 46 && !seen_dot))
        invariant
            start <= i <= e@.len(),
            start < e@.len(),
            number_end(e@, start as int, false) == number_end(e@, i as int, seen_dot),
            i == start ==> !seen_dot,
        decreases e.len() - i,
    {
        if e[i] == 46 {
            seen_dot = true;
        }
        i = i + 1;
    }
    *iter = i;
    TokenType::Const(copy_range(e, start, i))
}

/// Takes a quoted text.
pub fn lex_string(e: &[u8], iter: &mut usize) -> (r: TokenType)
    requires
        *old(iter) < e@.len(),
    ensures
        (match r@ {
            TokenView::Const(v) => (v, *final(iter) as int) == quoted(e@, *old(iter) + 1),
            _ => false,
        }),
        *old(iter) < *final(iter) <= e@.len(),
{
    let start: usize = *iter;
    let n: usize = e.len();
    assert(start < n);
    let mut buf: Vec<u8> = Vec::new();
    let mut i: usize = start + 1;
    let mut closed = false;
    let ghost all = quoted(e@, start + 1);
    while i < e.len() && !closed
        invariant
            start < i <= e@.len(),
            all == quoted(e@, start + 1),
            !closed ==> all == (buf@ + quoted(e@, i as int).0, quoted(e@, i as int).1),
            closed ==> all == (buf@, i as int),
        decreases e.len() - i + (if closed {
            0int
        } else {
            1int
        }),
    {
        let c: u8 = e[i];
        let ghost before = buf@;
        if c == 39 {
            if i + 1 < e.len() && e[i + 1] == 39 {
                buf.push(39);
                i = i + 2;
                assert(all.0 =~= buf@ + quoted(e@, i as int).0);
            } else {
                closed = true;
                i = i + 1;
                assert(all.0 =~= buf@);
            }
        } else {
            buf.push(c);
            i = i + 1;
            assert(all.0 =~= buf@ + quoted(e@, i as int).0);
        }
    }
    *iter = i;
    assert(all.0 =~= buf@);
    TokenType::Const(buf)
}

/// Takes an operator.
pub fn lex_oper(e: &[u8], iter: &mut usize) -> (r: TokenType)
    requires
        *old(iter) < e@.len(),
    ensures
        *final(iter) == oper_end(e@, *old(iter) as int),
        r@ == TokenView::Oper(e@.subrange(*old(iter) as int, *final(iter) as int)),
        *old(iter) < *final(iter) <= e@.len(),
{
    let start: usize = *iter;
    let n: usize = e.len();
    assert(start < n);
    let mut end: usize = start + 1;
    if end < e.len() {
        let a: u8 = e[start];
        let b: u8 = e[end];
        if (a == 60 && b == 61) || (a == 62 && b == 61) || (a == 33 && b == 61) || (a == 60 && b
            == 62) || (a == 61 && b == 61) {
            end = end + 1;
        }
    }
    *iter = end;
    TokenType::Oper(copy_range(e, start, end))
}

/// Cuts text into tokens.
pub fn lex_sqlexpr(e: &[u8]) -> (r: Vec<TokenType>)
    ensures
        token_views(r@) == tokens_from(e@, 0),
{
    let mut tokens: Vec<TokenType> = Vec::new();
    let mut iter: usize = 0;
    while iter < e.len()
        invariant
            iter <= e@.len(),
            token_views(tokens@) + tokens_from(e@, iter as int) == tokens_from(e@, 0),
        decreases e.len() - iter,
    {
        let c: u8 = e[iter];
        let ghost i0 = iter as int;
        let ghost before = tokens@;
        if (65 <= c && c <= 90) || (97 <= c && c <= 122) || c == 95 {
            let t = lex_ident(e, &mut iter);
            proof {
                pushed(before, t, tokens_from(e@, iter as int));
            }
            tokens.push(t);
        } else if 48 <= c && c <= 57 {
            let t = lex_num(e, &mut iter);
            proof {
                pushed(before, t, tokens_from(e@, iter as int));
            }
            tokens.push(t);
        } else if c == 39 {
            let t = lex_string(e, &mut iter);
            proof {
                pushed(before, t, tokens_from(e@, iter as int));
            }
            tokens.push(t);
        } else if c == 32 || c == 9 || c == 10 || c == 12 || c == 13 {
            iter = iter + 1;
        } else {
            let t = lex_oper(e, &mut iter);
            proof {
                pushed(before, t, tokens_from(e@, iter as int));
            }
            tokens.push(t);
        }
    }
    assert(token_views(tokens@) + tokens_from(e@, iter as int) =~= token_views(tokens@));
    tokens
}

proof fn pushed(a: Seq<TokenType>, t: TokenType, rest: Seq<TokenView>)
    ensures
        token_views(a.push(t)) + rest == token_views(a) + (seq![t@] + rest),
{
    assert(token_views(a.push(t)) + rest =~= token_views(a) + (seq![t@] + rest));
}

} // verus!
