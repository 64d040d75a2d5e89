//! Tokens as text, and that the tokens of their text are the tokens.
use vstd::prelude::*;
use vstd::utf8::{encode_utf8, is_ascii_chars, is_ascii_chars_encode_utf8};

use crate::sql::ast::{RootNodeView, StatementView};
use crate::sql::grammar::p_root;
use crate::sql::lexer::{
    in_word, is_blank, is_digit_byte, is_pair, number_end, oper_end, quoted, starts_word,
    tokens_from, word_end, TokenView,
};
use crate::sql::phrasing::{statement_writable, statements_from, statements_read_back};
use crate::sql::spacing::{blank_parts_tokens, closes, quotes_closed, tokens_moved};

verus! {

/// A text with its quotes doubled.
pub open spec fn doubled(b: Seq<u8>) -> Seq<u8>
    decreases b.len(),
{
    if b.len() == 0 {
        seq![]
    } else if b[0] == 39 {
        seq![39u8, 39u8] + doubled(b.skip(1))
    } else {
        seq![b[0]] + doubled(b.skip(1))
    }
}

/// Whether bytes are a number: digits with one point at most, which is not the first.
pub open spec fn is_number(b: Seq<u8>) -> bool {
    &&& b.len() > 0
    &&& is_digit_byte(b[0])
    &&& forall|i: int| 0 <= i < b.len() ==> is_digit_byte(#[trigger] b[i]) || b[i] == 46
    &&& forall|i: int, j: int|
        0 <= i < j < b.len() ==> !(#[trigger] b[i] == 46 && #[trigger] b[j] == 46)
}

/// A token as text: a constant that is a number as it is, another one between quotes.
pub open spec fn spelled(t: TokenView) -> Seq<u8> {
    match t {
        TokenView::Ident(b) => b,
        TokenView::Oper(b) => b,
        TokenView::Const(b) => if is_number(b) {
            b
        } else {
            seq![39u8] + doubled(b) + seq![39u8]
        },
    }
}

/// Whether a token can be spelled: a word of letters, digits and underscores that does not
/// start with a digit, an operator of one byte or of two that belong together, and any
/// constant.
pub open spec fn spellable(t: TokenView) -> bool {
    match t {
        TokenView::Ident(b) => b.len() > 0 && starts_word(b[0]) && forall|i: int|
            0 <= i < b.len() ==> in_word(#[trigger] b[i]),
        TokenView::Oper(b) => (b.len() == 1 && !starts_word(b[0]) && !is_digit_byte(b[0]) && b[0]
            != 39 && !is_blank(b[0])) || (b.len() == 2 && is_pair(b[0], b[1])),
        TokenView::Const(b) => true,
    }
}

/// Tokens as text, with a blank behind each.
pub open spec fn spelled_all(t: Seq<TokenView>) -> Seq<u8>
    decreases t.len(),
{
    if t.len() == 0 {
        seq![]
    } else {
        spelled(t[0]) + seq![32u8] + spelled_all(t.skip(1))
    }
}

proof fn word_to_end(b: Seq<u8>, i: int)
    requires
        0 <= i <= b.len(),
        forall|k: int| 0 <= k < b.len() ==> in_word(#[trigger] b[k]),
    ensures
        word_end(b, i) == b.len(),
    decreases b.len() - i,
{
    if i < b.len() {
        assert(in_word(b[i]));
        word_to_end(b, i + 1);
    }
}

proof fn number_to_end(b: Seq<u8>, i: int, dot: bool)
    requires
        0 <= i <= b.len(),
        is_number(b),
        dot == (exists|k: int| 0 <= k < i && b[k] == 46),
    ensures
        number_end(b, i, dot) == b.len(),
    decreases b.len() - i,
{
    if i < b.len() {
        assert(is_digit_byte(b[i]) || b[i] == 46);
        if b[i] == 46 {
            if dot {
                let k = choose|k: int| 0 <= k < i && b[k] == 46;
                assert(!(b[k] == 46 && b[i] == 46));
            }
            assert(0 <= i < i + 1 && b[i] == 46);
        }
        let d = dot || b[i] == 46;
        assert(d == (exists|k: int| 0 <= k < i + 1 && b[k] == 46)) by {
            if dot {
                let k = choose|k: int| 0 <= k < i && b[k] == 46;
                assert(0 <= k < i + 1 && b[k] == 46);
            }
            if exists|k: int| 0 <= k < i + 1 && b[k] == 46 {
                let k = choose|k: int| 0 <= k < i + 1 && b[k] == 46;
                if k < i {
                    assert(0 <= k < i && b[k] == 46);
                }
            }
        }
        number_to_end(b, i + 1, d);
    }
}

/// A quoted text is read back.
proof fn quoted_back(a: Seq<u8>, b: Seq<u8>)
    ensures
        quoted(a + doubled(b) + seq![39u8], a.len() as int) == (
            b,
            (a.len() + doubled(b).len() + 1) as int,
        ),
        closes(a + doubled(b) + seq![39u8], a.len() as int),
    decreases b.len(),
{
    let e = a + doubled(b) + seq![39u8];
    let n = a.len() as int;
    if b.len() == 0 {
        assert(e[n] == 39);
        assert(b =~= seq![]);
    } else {
        let rest = b.skip(1);
        if b[0] == 39 {
            let c = a + seq![39u8, 39u8];
            quoted_back(c, rest);
            assert(c + doubled(rest) + seq![39u8] =~= e);
            assert(e[n] == 39);
            assert(e[n + 1] == 39);
            assert(b =~= seq![39u8] + rest);
        } else {
            let c = a + seq![b[0]];
            quoted_back(c, rest);
            assert(c + doubled(rest) + seq![39u8] =~= e);
            assert(e[n] == b[0]);
            assert(b =~= seq![b[0]] + rest);
        }
    }
}

/// The text of a token has that token alone, and its quotes are closed.
pub proof fn token_back(t: TokenView)
    requires
        spellable(t),
    ensures
        tokens_from(spelled(t), 0) == seq![t],
        quotes_closed(spelled(t), 0),
{
    let e = spelled(t);
    let n = e.len() as int;
    assert(tokens_from(e, n) =~= seq![]);
    assert(quotes_closed(e, n));
    match t {
        TokenView::Ident(b) => {
            word_to_end(b, 0);
            assert(e.subrange(0, n) =~= b);
        },
        TokenView::Oper(b) => {
            if b.len() == 2 {
                assert(is_pair(b[0], b[1]));
                assert(oper_end(e, 0) == 2);
            } else {
                assert(oper_end(e, 0) == 1);
            }
            assert(e.subrange(0, n) =~= b);
            assert(seq![t] + tokens_from(e, n) =~= seq![t]);
        },
        TokenView::Const(b) => {
            if is_number(b) {
                number_to_end(b, 0, false);
                assert(e.subrange(0, n) =~= b);
            } else {
                quoted_back(seq![39u8], b);
                assert(e[0] == 39);
            }
        },
    }
    assert(seq![t] + tokens_from(e, n) =~= seq![t]);
}

/// The tokens of the text of tokens are the tokens.
pub proof fn tokens_back(t: Seq<TokenView>)
    requires
        forall|i: int| 0 <= i < t.len() ==> spellable(#[trigger] t[i]),
    ensures
        tokens_from(spelled_all(t), 0) == t,
    decreases t.len(),
{
    if t.len() > 0 {
        token_back(t[0]);
        let rest = t.skip(1);
        assert forall|i: int| 0 <= i < rest.len() implies spellable(#[trigger] rest[i]) by {
            assert(rest[i] == t[i + 1]);
        }
        tokens_back(rest);
        blank_parts_tokens(spelled(t[0]), spelled_all(rest));
        assert(seq![t[0]] + rest =~= t);
    } else {
        assert(t =~= seq![]);
    }
}

// -- Whatever blanks -------------------------------------------

proof fn word_stops(a: Seq<u8>, z: Seq<u8>, i: int)
    requires
        0 <= i <= a.len(),
        forall|k: int| 0 <= k < a.len() ==> in_word(#[trigger] a[k]),
        z.len() > 0,
        !in_word(z[0]),
    ensures
        word_end(a + z, i) == a.len(),
    decreases a.len() - i,
{
    let e = a + z;
    if i < a.len() {
        assert(e[i] == a[i]);
        word_stops(a, z, i + 1);
    } else {
        assert(e[i] == z[0]);
    }
}

proof fn number_stops(a: Seq<u8>, z: Seq<u8>, i: int, dot: bool)
    requires
        0 <= i <= a.len(),
        number_end(a, i, dot) == a.len(),
        z.len() > 0,
        !is_digit_byte(z[0]),
        z[0] != 46,
    ensures
        number_end(a + z, i, dot) == a.len(),
    decreases a.len() - i,
{
    let e = a + z;
    if i < a.len() {
        assert(e[i] == a[i]);
        assert(is_digit_byte(a[i]) || (a[i] == 46 && !dot));
        number_stops(a, z, i + 1, dot || a[i] == 46);
    } else {
        assert(e[i] == z[0]);
    }
}

proof fn quoted_stops(a: Seq<u8>, b: Seq<u8>, z: Seq<u8>)
    requires
        z.len() > 0,
        z[0] != 39,
    ensures
        quoted(a + doubled(b) + seq![39u8] + z, a.len() as int) == (
            b,
            (a.len() + doubled(b).len() + 1) as int,
        ),
    decreases b.len(),
{
    let e = a + doubled(b) + seq![39u8] + z;
    let n = a.len() as int;
    if b.len() == 0 {
        assert(e[n] == 39);
        assert(e[n + 1] == z[0]);
        assert(b =~= seq![]);
    } else {
        let rest = b.skip(1);
        if b[0] == 39 {
            let c = a + seq![39u8, 39u8];
            quoted_stops(c, rest, z);
            assert(c + doubled(rest) + seq![39u8] + z =~= e);
            assert(e[n] == 39);
            assert(e[n + 1] == 39);
            assert(b =~= seq![39u8] + rest);
        } else {
            let c = a + seq![b[0]];
            quoted_stops(c, rest, z);
            assert(c + doubled(rest) + seq![39u8] + z =~= e);
            assert(e[n] == b[0]);
            assert(b =~= seq![b[0]] + rest);
        }
    }
}

/// A blank of any kind ends a token, and nothing is read from the blank itself.
pub proof fn blank_ends_token(t: TokenView, c: u8, z: Seq<u8>)
    requires
        spellable(t),
        c == 32 || c == 9 || c == 10 || c == 12 || c == 13,
    ensures
        tokens_from(spelled(t) + (seq![c] + z), 0) == seq![t] + tokens_from(z, 0),
        tokens_from(seq![c] + z, 0) == tokens_from(z, 0),
{
    let a = spelled(t);
    let y = seq![c] + z;
    let e = a + y;
    let n = a.len() as int;
    assert(y[0] == c);
    tokens_moved(seq![c], z, 0);
    assert(tokens_from(y, 0) == tokens_from(z, 0));
    tokens_moved(a, y, 0);
    match t {
        TokenView::Ident(b) => {
            word_stops(b, y, 0);
            assert(e[0] == b[0]);
            assert(e.subrange(0, n) =~= b);
        },
        TokenView::Oper(b) => {
            assert(e[0] == b[0]);
            if b.len() == 2 {
                assert(e[1] == b[1]);
            } else {
                assert(e[1] == c);
            }
            assert(oper_end(e, 0) == n);
            assert(e.subrange(0, n) =~= b);
        },
        TokenView::Const(b) => {
            if is_number(b) {
                number_to_end(b, 0, false);
                number_stops(b, y, 0, false);
                assert(e[0] == b[0]);
                assert(e.subrange(0, n) =~= b);
            } else {
                quoted_stops(seq![39u8], b, y);
                assert(e =~= seq![39u8] + doubled(b) + seq![39u8] + y);
                assert(e[0] == 39);
            }
        },
    }
}

/// The statements of the text of statements are the statements.
pub proof fn text_read_back(v: Seq<StatementView>, other: bool, sql: Seq<char>)
    requires
        forall|x: int| 0 <= x < v.len() ==> statement_writable(#[trigger] v[x]),
        forall|i: int|
            0 <= i < statements_from(v, 0, other).len() ==> spellable(
                #[trigger] statements_from(v, 0, other)[i],
            ),
        encode_utf8(sql) == spelled_all(statements_from(v, 0, other)),
    ensures
        p_root(tokens_from(encode_utf8(sql), 0), 0) == Ok::<
            (RootNodeView, int),
            (int, Seq<char>),
        >((RootNodeView { statements: v }, statements_from(v, 0, other).len() as int)),
{
    tokens_back(statements_from(v, 0, other));
    statements_read_back(v, other);
}

/// The bytes of two ASCII texts, one behind the other, are those of the first and then
/// those of the second.
pub proof fn ascii_add(a: Seq<char>, b: Seq<char>)
    requires
        is_ascii_chars(a),
        is_ascii_chars(b),
    ensures
        is_ascii_chars(a + b),
        encode_utf8(a + b) == encode_utf8(a) + encode_utf8(b),
{
    assert forall|i: int| 0 <= i < (a + b).len() implies '\0' <= #[trigger] (a + b)[i]
        <= '\u{7f}' by {
        if i < a.len() {
            assert((a + b)[i] == a[i]);
        } else {
            assert((a + b)[i] == b[i - a.len()]);
        }
    }
    is_ascii_chars_encode_utf8(a);
    is_ascii_chars_encode_utf8(b);
    is_ascii_chars_encode_utf8(a + b);
    let x = encode_utf8(a + b);
    let y = encode_utf8(a) + encode_utf8(b);
    assert forall|i: int| 0 <= i < x.len() implies x[i] == y[i] by {
        assert(x[i] == (a + b)[i] as u8);
        if i < a.len() {
            assert(encode_utf8(a)[i] == a[i] as u8);
        } else {
            assert(encode_utf8(b)[i - a.len()] == b[i - a.len()] as u8);
        }
    }
    assert(x =~= y);
}

} // verus!
