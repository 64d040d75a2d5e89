//! The columns of a table as the schema stores them, read back.
use vstd::prelude::*;

use crate::sql::schema::{
    hex_digit, json_bool, json_char, json_chars, json_column, json_columns, json_string,
    json_structure, table_record, ColumnDefView, TableStructureView,
};

verus! {

// -- Reading ---------------------------------------------------

/// The place behind a text that is expected at a place, where it stands there.
pub open spec fn expected(s: Seq<char>, i: int, k: Seq<char>) -> Option<int> {
    if 0 <= i && i + k.len() <= s.len() && s.subrange(i, i + k.len()) == k {
        Some(i + k.len())
    } else {
        None
    }
}

/// The value of a hexadecimal digit.
pub open spec fn hex_value(c: char) -> int {
    if '0' <= c <= '9' {
        c as int - 48
    } else if 'a' <= c <= 'f' {
        c as int - 87
    } else if 'A' <= c <= 'F' {
        c as int - 55
    } else {
        0
    }
}

/// The character that an escape at a place behind a backslash stands for, and how long the
/// escape is.
pub open spec fn escape_at(s: Seq<char>, i: int) -> Option<(char, int)> {
    if !(0 <= i < s.len()) {
        None
    } else if s[i] == '"' || s[i] == '\\' || s[i] == '/' {
        Some((s[i], 1))
    } else if s[i] == 'b' {
        Some((8u8 as char, 1))
    } else if s[i] == 't' {
        Some((9u8 as char, 1))
    } else if s[i] == 'n' {
        Some((10u8 as char, 1))
    } else if s[i] == 'f' {
        Some((12u8 as char, 1))
    } else if s[i] == 'r' {
        Some((13u8 as char, 1))
    } else if s[i] == 'u' && i + 4 < s.len() {
        Some(
            (
                (hex_value(s[i + 1]) * 4096 + hex_value(s[i + 2]) * 256 + hex_value(s[i + 3]) * 16
                    + hex_value(s[i + 4])) as char,
                5,
            ),
        )
    } else {
        None
    }
}

/// The text of a JSON string from a place behind its opening quote on, and the place
/// behind its closing quote.
pub open spec fn unquoted(s: Seq<char>, i: int) -> Option<(Seq<char>, int)>
    decreases s.len() - i,
{
    if !(0 <= i < s.len()) {
        None
    } else if s[i] == '"' {
        Some((seq![], i + 1))
    } else if s[i] == '\\' {
        match escape_at(s, i + 1) {
            Some((c, n)) => if n > 0 {
                match unquoted(s, i + 1 + n) {
                    Some((rest, j)) => Some((seq![c] + rest, j)),
                    None => None,
                }
            } else {
                None
            },
            None => None,
        }
    } else {
        match unquoted(s, i + 1) {
            Some((rest, j)) => Some((seq![s[i]] + rest, j)),
            None => None,
        }
    }
}

/// The text that a field of an object holds, and the place behind it.
pub open spec fn text_field(s: Seq<char>, i: int, key: Seq<char>) -> Option<(Seq<char>, int)> {
    match expected(s, i, key) {
        Some(j) => match expected(s, j, "\""@) {
            Some(k) => unquoted(s, k),
            None => None,
        },
        None => None,
    }
}

/// The truth value that a field of an object holds, and the place behind it.
pub open spec fn bool_field(s: Seq<char>, i: int, key: Seq<char>) -> Option<(bool, int)> {
    match expected(s, i, key) {
        Some(j) => match expected(s, j, "true"@) {
            Some(k) => Some((true, k)),
            None => match expected(s, j, "false"@) {
                Some(k) => Some((false, k)),
                None => None,
            },
        },
        None => None,
    }
}

/// The column that stands at a place, and the place behind it.
pub open spec fn column_at(s: Seq<char>, i: int) -> Option<(ColumnDefView, int)> {
    match text_field(s, i, "{\"name\":"@) {
        Some((name, j)) => match text_field(s, j, ",\"col_type\":"@) {
            Some((col_type, k)) => match bool_field(s, k, ",\"nullable\":"@) {
                Some((nullable, l)) => match bool_field(s, l, ",\"is_primary_key\":"@) {
                    Some((is_primary_key, m)) => match expected(s, m, "}"@) {
                        Some(n) => Some(
                            (ColumnDefView { name, col_type, nullable, is_primary_key }, n),
                        ),
                        None => None,
                    },
                    None => None,
                },
                None => None,
            },
            None => None,
        },
        None => None,
    }
}

/// The columns from a place on, up to the closing bracket.
pub open spec fn columns_at(s: Seq<char>, i: int) -> Option<(Seq<ColumnDefView>, int)>
    decreases s.len() - i,
{
    match column_at(s, i) {
        Some((c, j)) => if i < j < s.len() && s[j] == ',' {
            match columns_at(s, j + 1) {
                Some((rest, k)) => Some((seq![c] + rest, k)),
                None => None,
            }
        } else {
            Some((seq![c], j))
        },
        None => None,
    }
}

/// The columns that a stored text says a table has.
pub open spec fn read_structure(s: Seq<char>) -> Option<TableStructureView> {
    match expected(s, 0, "{\"columns\":["@) {
        Some(i) => if expected(s, i, "]}"@) == Some(s.len() as int) {
            Some(TableStructureView { columns: seq![] })
        } else {
            match columns_at(s, i) {
                Some((columns, j)) => if expected(s, j, "]}"@) == Some(s.len() as int) {
                    Some(TableStructureView { columns })
                } else {
                    None
                },
                None => None,
            }
        },
        None => None,
    }
}

// -- What was stored is read back ------------------------------

proof fn json_chars_first(x: Seq<char>)
    requires
        x.len() > 0,
    ensures
        json_chars(x) == json_char(x[0]) + json_chars(x.skip(1)),
    decreases x.len(),
{
    if x.len() == 1 {
        assert(x.drop_last() =~= seq![]);
        assert(x.skip(1) =~= seq![]);
        assert(json_chars(x) =~= json_char(x[0]) + json_chars(x.skip(1)));
    } else {
        let d = x.drop_last();
        json_chars_first(d);
        assert(d.skip(1) =~= x.skip(1).drop_last());
        assert(json_chars(x.skip(1)) == json_chars(x.skip(1).drop_last()) + json_char(x.last()));
        assert(json_chars(x) =~= json_char(x[0]) + json_chars(x.skip(1)));
    }
}

/// Whether a text stands at a place.
spec fn here(s: Seq<char>, i: int, w: Seq<char>) -> bool {
    &&& 0 <= i
    &&& i + w.len() <= s.len()
    &&& forall|k: int| 0 <= k < w.len() ==> s[i + k] == #[trigger] w[k]
}

proof fn here_add(s: Seq<char>, i: int, a: Seq<char>, b: Seq<char>)
    requires
        here(s, i, a + b),
    ensures
        here(s, i, a),
        here(s, i + a.len(), b),
{
    assert forall|k: int| 0 <= k < a.len() implies s[i + k] == #[trigger] a[k] by {
        assert((a + b)[k] == a[k]);
    }
    assert forall|k: int| 0 <= k < b.len() implies s[i + a.len() + k] == #[trigger] b[k] by {
        assert((a + b)[a.len() + k] == b[k]);
    }
}

proof fn expected_here(s: Seq<char>, i: int, k: Seq<char>)
    ensures
        here(s, i, k) ==> expected(s, i, k) == Some(i + k.len()),
        expected(s, i, k) is Some ==> here(s, i, k),
{
    if here(s, i, k) {
        assert(s.subrange(i, i + k.len()) =~= k);
    }
    if expected(s, i, k) is Some {
        let w = s.subrange(i, i + k.len());
        assert forall|x: int| 0 <= x < k.len() implies s[i + x] == #[trigger] k[x] by {
            assert(w[x] == s[i + x]);
        }
    }
}

/// A character that is escaped is read back.
proof fn escape_back(s: Seq<char>, i: int, c: char)
    requires
        here(s, i, json_char(c)),
    ensures
        json_char(c).len() > 0,
        json_char(c)[0] == '\\' ==> s[i] == '\\' && escape_at(s, i + 1) == Some(
            (c, json_char(c).len() - 1),
        ),
        json_char(c)[0] != '\\' ==> json_char(c) == seq![c] && s[i] == c && c != '"' && c != '\\',
{
    let w = json_char(c);
    let n = c as int;
    assert(s[i + 0] == w[0]);
    if n == 34 || n == 92 {
        assert(s[i + 1] == w[1]);
        assert(c == '"' || c == '\\');
    } else if n == 8 || n == 9 || n == 10 || n == 12 || n == 13 {
        assert(s[i + 1] == w[1]);
        assert(c == n as char);
    } else if n < 32 {
        assert(s[i + 1] == w[1]);
        assert(s[i + 2] == w[2]);
        assert(s[i + 3] == w[3]);
        assert(s[i + 4] == w[4]);
        assert(s[i + 5] == w[5]);
        assert(hex_value(hex_digit(n / 16)) == n / 16);
        assert(hex_value(hex_digit(n % 16)) == n % 16);
        assert((n / 16) * 16 + n % 16 == n);
        assert(n as char == c);
    } else {
        assert(w[0] == c);
        assert(c != '"' && c != '\\');
    }
}

/// A quoted text is read back.
proof fn unquoted_back(s: Seq<char>, i: int, x: Seq<char>)
    requires
        here(s, i, json_chars(x)),
        here(s, i + json_chars(x).len(), seq!['"']),
    ensures
        unquoted(s, i) == Some((x, i + json_chars(x).len() + 1)),
    decreases x.len(),
{
    if x.len() == 0 {
        let q = seq!['"'];
        assert(s[i + 0] == q[0]);
        assert(x =~= seq![]);
    } else {
        let c = x[0];
        let rest = x.skip(1);
        let w = json_char(c);
        json_chars_first(x);
        here_add(s, i, w, json_chars(rest));
        unquoted_back(s, i + w.len(), rest);
        escape_back(s, i, c);
        assert(x =~= seq![c] + rest);
    }
}

proof fn text_field_back(s: Seq<char>, i: int, key: Seq<char>, x: Seq<char>)
    requires
        here(s, i, key),
        here(s, i + key.len(), json_string(x)),
    ensures
        text_field(s, i, key) == Some((x, i + key.len() + json_string(x).len())),
{
    reveal_strlit("\"");
    let j = i + key.len();
    let q = seq!['"'];
    expected_here(s, i, key);
    here_add(s, j, q + json_chars(x), q);
    here_add(s, j, q, json_chars(x));
    assert("\""@ =~= q);
    expected_here(s, j, "\""@);
    unquoted_back(s, j + 1, x);
}

proof fn bool_field_back(s: Seq<char>, i: int, key: Seq<char>, b: bool)
    requires
        here(s, i, key),
        here(s, i + key.len(), json_bool(b)),
    ensures
        bool_field(s, i, key) == Some((b, i + key.len() + json_bool(b).len())),
{
    reveal_strlit("true");
    reveal_strlit("false");
    let j = i + key.len();
    expected_here(s, i, key);
    expected_here(s, j, "true"@);
    expected_here(s, j, "false"@);
    if !b {
        assert(s[j + 0] == "false"@[0]);
        if here(s, j, "true"@) {
            assert(s[j + 0] == "true"@[0]);
        }
    }
}

/// A stored column is read back, with its name, its type and what is said of it.
proof fn column_back(s: Seq<char>, i: int, c: ColumnDefView)
    requires
        here(s, i, json_column(c)),
    ensures
        column_at(s, i) == Some((c, i + json_column(c).len())),
{
    let k1 = "{\"name\":"@;
    let k2 = ",\"col_type\":"@;
    let k3 = ",\"nullable\":"@;
    let k4 = ",\"is_primary_key\":"@;
    let k5 = "}"@;
    let n = json_string(c.name);
    let t = json_string(c.col_type);
    let x = json_bool(c.nullable);
    let y = json_bool(c.is_primary_key);
    here_add(s, i, k1 + n + k2 + t + k3 + x + k4 + y, k5);
    here_add(s, i, k1 + n + k2 + t + k3 + x + k4, y);
    here_add(s, i, k1 + n + k2 + t + k3 + x, k4);
    here_add(s, i, k1 + n + k2 + t + k3, x);
    here_add(s, i, k1 + n + k2 + t, k3);
    here_add(s, i, k1 + n + k2, t);
    here_add(s, i, k1 + n, k2);
    here_add(s, i, k1, n);
    let i2 = i + k1.len() + n.len();
    let i3 = i2 + k2.len() + t.len();
    let i4 = i3 + k3.len() + x.len();
    let i5 = i4 + k4.len() + y.len();
    text_field_back(s, i, k1, c.name);
    text_field_back(s, i2, k2, c.col_type);
    bool_field_back(s, i3, k3, c.nullable);
    bool_field_back(s, i4, k4, c.is_primary_key);
    expected_here(s, i5, k5);
}

proof fn json_columns_first(c: Seq<ColumnDefView>)
    requires
        c.len() > 1,
    ensures
        json_columns(c) == json_column(c[0]) + ","@ + json_columns(c.skip(1)),
    decreases c.len(),
{
    let d = c.drop_last();
    if c.len() == 2 {
        assert(d =~= seq![c[0]]);
        assert(c.skip(1) =~= seq![c[1]]);
        assert(json_columns(d) == json_column(c[0]));
        assert(json_columns(c.skip(1)) == json_column(c[1]));
    } else {
        json_columns_first(d);
        let e = c.skip(1);
        assert(d.skip(1) =~= e.drop_last());
        assert(d[0] == c[0]);
        assert(json_columns(e) == json_columns(e.drop_last()) + ","@ + json_column(e.last()));
        let a = json_column(c[0]) + ","@;
        let b = json_columns(e.drop_last());
        let l = ","@ + json_column(c.last());
        assert(json_columns(c) =~= (a + b) + l);
        assert(json_columns(e) =~= b + l);
        assert((a + b) + l =~= a + (b + l));
    }
}

proof fn columns_back(s: Seq<char>, i: int, c: Seq<ColumnDefView>)
    requires
        c.len() > 0,
        here(s, i, json_columns(c)),
        i + json_columns(c).len() < s.len(),
        s[i + json_columns(c).len()] != ',',
    ensures
        columns_at(s, i) == Some((c, i + json_columns(c).len())),
    decreases c.len(),
{
    let w = json_column(c[0]);
    column_some(c[0]);
    if c.len() == 1 {
        column_back(s, i, c[0]);
        assert(c =~= seq![c[0]]);
    } else {
        let rest = c.skip(1);
        json_columns_first(c);
        reveal_strlit(",");
        here_add(s, i, w + ","@, json_columns(rest));
        here_add(s, i, w, ","@);
        column_back(s, i, c[0]);
        assert(s[i + w.len() + 0] == ","@[0]);
        columns_back(s, i + w.len() + 1, rest);
        assert(c =~= seq![c[0]] + rest);
    }
}

proof fn column_some(c: ColumnDefView)
    ensures
        json_column(c).len() > 0,
        json_column(c)[0] == '{',
{
    reveal_strlit("{\"name\":");
}

/// What is stored of the columns of a table is read back as the columns: each with its
/// name, its type, whether it may hold nothing and whether it is the primary key.
pub proof fn structure_read_back(t: TableStructureView)
    ensures
        read_structure(json_structure(t)) == Some(t),
{
    let s = json_structure(t);
    let h = "{\"columns\":["@;
    let e = "]}"@;
    let c = t.columns;
    let i = h.len() as int;
    let j = i + json_columns(c).len();
    reveal_strlit("]}");
    assert(here(s, 0, s));
    here_add(s, 0, h + json_columns(c), e);
    here_add(s, 0, h, json_columns(c));
    expected_here(s, 0, h);
    expected_here(s, j, e);
    if c.len() == 0 {
        assert(c =~= seq![]);
    } else {
        assert(s[j + 0] == e[0]);
        columns_back(s, i, c);
        first_brace(c);
        expected_here(s, i, e);
        if here(s, i, e) {
            assert(s[i + 0] == e[0]);
            assert(s[i + 0] == json_columns(c)[0]);
        }
    }
}

proof fn first_brace(c: Seq<ColumnDefView>)
    requires
        c.len() > 0,
    ensures
        json_columns(c).len() > 0,
        json_columns(c)[0] == '{',
{
    column_some(c[0]);
    if c.len() > 1 {
        json_columns_first(c);
    }
}

/// What is stored of the columns of a table tells them apart from those of any other.
pub proof fn stored_columns_differ(a: TableStructureView, b: TableStructureView)
    requires
        json_structure(a) == json_structure(b),
    ensures
        a == b,
{
    structure_read_back(a);
    structure_read_back(b);
}

/// The rows that the schema has for two tables are the same only where the tables have the
/// same name, the same place and the same columns.
pub proof fn stored_tables_differ(
    n: Seq<char>,
    p: u32,
    a: TableStructureView,
    m: Seq<char>,
    q: u32,
    b: TableStructureView,
)
    requires
        table_record(n, p, a) == table_record(m, q, b),
    ensures
        n == m,
        p == q,
        a == b,
{
    crate::sql::schema::record_round_trip(n, p, a);
    crate::sql::schema::record_round_trip(m, q, b);
    stored_columns_differ(a, b);
}

} // verus!
