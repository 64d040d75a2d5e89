//! What is typed in and what is shown.
use vstd::prelude::*;

use crate::engine::value::DataView;
use crate::sql::session::{
    byte_texts, hex_digit, hexadecimal, is_complete, is_space, meta_of, shown, skip_space,
    skip_word, trim_end, word_from, MetaView,
};
use crate::sql::text::{decimal, value_of};
use crate::sql::writing::decimal_value;

verus! {

/// A text is complete exactly where a semicolon is followed by nothing but white space.
pub proof fn complete_by_semicolon(s: Seq<char>)
    ensures
        is_complete(s) <==> exists|k: int|
            0 <= k < s.len() && s[k] == ';' && forall|i: int|
                k < i < s.len() ==> is_space(#[trigger] s[i]),
    decreases s.len(),
{
    if s.len() > 0 {
        let d = s.drop_last();
        let n = s.len() - 1;
        complete_by_semicolon(d);
        if is_space(s.last()) {
            assert(trim_end(s) == trim_end(d));
            if is_complete(s) {
                let k = choose|k: int|
                    0 <= k < d.len() && d[k] == ';' && forall|i: int|
                        k < i < d.len() ==> is_space(#[trigger] d[i]);
                assert(s[k] == ';');
                assert forall|i: int| k < i < s.len() implies is_space(#[trigger] s[i]) by {
                    if i < n {
                        assert(d[i] == s[i]);
                    }
                }
            }
            if exists|k: int|
                0 <= k < s.len() && s[k] == ';' && forall|i: int|
                    k < i < s.len() ==> is_space(#[trigger] s[i]) {
                let k = choose|k: int|
                    0 <= k < s.len() && s[k] == ';' && forall|i: int|
                        k < i < s.len() ==> is_space(#[trigger] s[i]);
                assert(k != n);
                assert(d[k] == ';');
                assert forall|i: int| k < i < d.len() implies is_space(#[trigger] d[i]) by {
                    assert(d[i] == s[i]);
                }
            }
        } else {
            assert(trim_end(s) == s);
            if is_complete(s) {
                assert(s[n] == ';');
            }
            if exists|k: int|
                0 <= k < s.len() && s[k] == ';' && forall|i: int|
                    k < i < s.len() ==> is_space(#[trigger] s[i]) {
                let k = choose|k: int|
                    0 <= k < s.len() && s[k] == ';' && forall|i: int|
                        k < i < s.len() ==> is_space(#[trigger] s[i]);
                if k < n {
                    assert(is_space(s[n]));
                }
            }
        }
    }
}

// -- Commands --------------------------------------------------

/// Whether a text is one word between white space.
pub open spec fn is_one_word(w: Seq<char>) -> bool {
    w.len() > 0 && forall|i: int| 0 <= i < w.len() ==> !is_space(#[trigger] w[i])
}

/// Whether a text is white space.
pub open spec fn is_all_space(s: Seq<char>) -> bool {
    forall|i: int| 0 <= i < s.len() ==> is_space(#[trigger] s[i])
}

proof fn space_skipped(s: Seq<char>, i: int, j: int)
    requires
        0 <= i <= j <= s.len(),
        forall|k: int| i <= k < j ==> is_space(#[trigger] s[k]),
        j < s.len() ==> !is_space(s[j]),
    ensures
        skip_space(s, i) == j,
    decreases j - i,
{
    if i < j {
        space_skipped(s, i + 1, j);
    }
}

proof fn word_skipped(s: Seq<char>, i: int, j: int)
    requires
        0 <= i <= j <= s.len(),
        forall|k: int| i <= k < j ==> !is_space(#[trigger] s[k]),
        j < s.len() ==> is_space(s[j]),
    ensures
        skip_word(s, i) == j,
    decreases j - i,
{
    if i < j {
        word_skipped(s, i + 1, j);
    }
}

/// The words of a line are what stands between white space: the first word of a line, and
/// the second behind it.
pub proof fn words_of_a_line(
    a: Seq<char>,
    w: Seq<char>,
    b: Seq<char>,
    v: Seq<char>,
    c: Seq<char>,
)
    requires
        is_all_space(a),
        is_one_word(w),
        is_all_space(b),
        v.len() == 0 || (is_one_word(v) && b.len() > 0),
        v.len() == 0 ==> c.len() == 0,
        c.len() > 0 ==> is_space(c[0]),
    ensures
        ({
            let line = a + w + b + v + c;
            &&& word_from(line, 0).0 == w
            &&& word_from(line, word_from(line, 0).1).0 == v
        }),
{
    let s = a + w + b + v + c;
    let i = a.len() as int;
    let j = i + w.len();
    let k = j + b.len();
    let l = k + v.len();
    assert forall|x: int| 0 <= x < i implies is_space(#[trigger] s[x]) by {
        assert(s[x] == a[x]);
    }
    assert forall|x: int| i <= x < j implies !is_space(#[trigger] s[x]) by {
        assert(s[x] == w[x - i]);
    }
    assert forall|x: int| j <= x < k implies is_space(#[trigger] s[x]) by {
        assert(s[x] == b[x - j]);
    }
    assert forall|x: int| k <= x < l implies !is_space(#[trigger] s[x]) by {
        assert(s[x] == v[x - k]);
    }
    if l < s.len() {
        assert(s[l] == c[0]);
    }
    if j < s.len() && b.len() == 0 {
        assert(v.len() == 0 && c.len() == 0);
    }
    space_skipped(s, 0, i);
    word_skipped(s, i, j);
    space_skipped(s, j, k);
    word_skipped(s, k, l);
    assert(s.subrange(i, j) =~= w);
    assert(s.subrange(k, l) =~= v);
}

/// The commands are told by the first word of a line, and the second goes with those that
/// take one.
pub proof fn commands_of_a_line(
    a: Seq<char>,
    w: Seq<char>,
    b: Seq<char>,
    v: Seq<char>,
    c: Seq<char>,
)
    requires
        is_all_space(a),
        is_one_word(w),
        is_all_space(b),
        v.len() == 0 || (is_one_word(v) && b.len() > 0),
        v.len() == 0 ==> c.len() == 0,
        c.len() > 0 ==> is_space(c[0]),
    ensures
        ({
            let m = meta_of(a + w + b + v + c);
            let more = if v.len() == 0 {
                None
            } else {
                Some(v)
            };
            &&& w == ".exit"@ ==> m == MetaView::Exit
            &&& w == ".quit"@ ==> m == MetaView::Exit
            &&& w == ".help"@ ==> m == MetaView::Help
            &&& w == ".open"@ ==> m == MetaView::Open(more)
            &&& w == ".tables"@ ==> m == MetaView::Tables
            &&& w == ".schema"@ ==> m == MetaView::Schema(more)
            &&& w == ".dbinfo"@ ==> m == MetaView::Dbinfo
            &&& w != ".exit"@ && w != ".quit"@ && w != ".help"@ && w != ".open"@ && w != ".tables"@
                && w != ".schema"@ && w != ".dbinfo"@ ==> m == MetaView::Unknown(w)
        }),
{
    words_of_a_line(a, w, b, v, c);
    reveal_strlit(".exit");
    reveal_strlit(".quit");
    reveal_strlit(".help");
    reveal_strlit(".open");
    reveal_strlit(".tables");
    reveal_strlit(".schema");
    reveal_strlit(".dbinfo");
    assert(".exit"@[1] == 'e' && ".quit"@[1] == 'q' && ".help"@[1] == 'h' && ".open"@[1] == 'o');
    assert(".tables"@[1] == 't' && ".schema"@[1] == 's' && ".dbinfo"@[1] == 'd');
}

// -- Values ----------------------------------------------------

proof fn hex_digits(a: u8)
    requires
        a < 16,
    ensures
        hex_digit(a) != ',',
        forall|b: u8| b < 16 && hex_digit(a) == #[trigger] hex_digit(b) ==> a == b,
{
    reveal_strlit("0123456789ABCDEF");
}

/// Bytes are shown so that they can be told apart.
proof fn bytes_told_apart(a: Seq<u8>, b: Seq<u8>)
    requires
        byte_texts(a) == byte_texts(b),
    ensures
        a == b,
    decreases a.len(),
{
    reveal_strlit(",");
    if a.len() == 0 || b.len() == 0 {
        bytes_end(a);
        bytes_end(b);
        assert(a =~= b);
    } else {
        let x = a.last();
        let y = b.last();
        let da = a.drop_last();
        let db = b.drop_last();
        let s = byte_texts(a);
        let n = s.len() as int;
        bytes_end(a);
        bytes_end(b);
        bytes_end(da);
        bytes_end(db);
        hex_digits(x % 16);
        hex_digits(y % 16);
        hex_digits(x / 16);
        hex_digits(y / 16);
        let u = byte_texts(da);
        let v = byte_texts(db);
        assert(s[n - 2] == hexadecimal(x).last());
        assert(s[n - 2] == hexadecimal(y).last());
        assert(x % 16 == y % 16) by {
            if x < 16 {
                assert(x % 16 == x);
            }
            if y < 16 {
                assert(y % 16 == y);
            }
        }
        if x >= 16 {
            assert(s[n - 3] == hex_digit(x / 16));
            if y < 16 {
                assert(v.len() == n - 2);
                assert(s[n - 3] == v[n - 3]);
            }
        }
        if y >= 16 {
            assert(s[n - 3] == hex_digit(y / 16));
            if x < 16 {
                assert(u.len() == n - 2);
                assert(s[n - 3] == u[n - 3]);
            }
        }
        assert(x == y);
        assert(u =~= s.take(u.len() as int));
        assert(v =~= s.take(v.len() as int));
        bytes_told_apart(da, db);
        assert(a =~= da.push(x));
        assert(b =~= db.push(y));
    }
}

proof fn bytes_end(a: Seq<u8>)
    ensures
        a.len() == 0 <==> byte_texts(a).len() == 0,
        a.len() > 0 ==> byte_texts(a).last() == ',',
{
    reveal_strlit(",");
}

/// Values that are not reals are shown so that they can be told apart.
pub proof fn values_told_apart(v: DataView, w: DataView, x: Seq<char>, y: Seq<char>)
    requires
        !(v is Real),
        !(w is Real),
        shown(v, x) == shown(w, y),
    ensures
        v == w,
{
    reveal_strlit("Null");
    reveal_strlit("Intg(");
    reveal_strlit("Text(");
    reveal_strlit("Blob([");
    reveal_strlit(")");
    let s = shown(v, x);
    assert(s[0] == shown(w, y)[0]);
    match (v, w) {
        (DataView::Integer(m), DataView::Integer(n)) => {
            let a = decimal(m as nat);
            let b = decimal(n as nat);
            assert(a =~= s.subrange(5, s.len() - 1));
            assert(b =~= s.subrange(5, s.len() - 1));
            decimal_value(m as nat);
            decimal_value(n as nat);
        },
        (DataView::Text(a), DataView::Text(b)) => {
            assert(a =~= s.subrange(5, s.len() - 1));
            assert(b =~= s.subrange(5, s.len() - 1));
        },
        (DataView::Blob(a), DataView::Blob(b)) => {
            assert(byte_texts(a) =~= s.skip(6));
            assert(byte_texts(b) =~= s.skip(6));
            bytes_told_apart(a, b);
        },
        _ => {},
    }
}

/// An integer is shown in decimal: the digits between the brackets are its value.
pub proof fn integers_shown(n: u64, x: Seq<char>)
    ensures
        ({
            let s = shown(DataView::Integer(n), x);
            value_of(s.subrange(5, s.len() - 1)) == n
        }),
{
    reveal_strlit("Intg(");
    reveal_strlit(")");
    let s = shown(DataView::Integer(n), x);
    decimal_value(n as nat);
    assert(s.subrange(5, s.len() - 1) =~= decimal(n as nat));
}

} // verus!
