//! The text that is shown for a table, read as a statement.
use vstd::prelude::*;
use vstd::utf8::{encode_utf8, is_ascii_chars, is_ascii_chars_encode_utf8};

use crate::sql::ast::{CreateTableStmtView, StatementView, TableNameView};
use crate::sql::lexer::{in_word, oper_end, starts_word, tokens_from, word_end, TokenView};
use crate::sql::outcomes::read_alone;
use crate::sql::phrasing::{
    column_tokens, is_bracketed, listed, listed_from, name_tokens, rule_tokens, statement_tokens,
    statement_writable, statements_from, statements_read_back, type_tokens,
};
use crate::sql::schema::ColumnDefView;
use crate::sql::session::{column_text, column_texts, table_text};
use crate::sql::spacing::tokens_moved;
use crate::sql::spelling::ascii_add;
use crate::sql::writing::{capitals, cased, keyword, oper, word};

verus! {

/// Whether a character can stand in a word.
pub open spec fn word_char(c: char) -> bool {
    'a' <= c <= 'z' || 'A' <= c <= 'Z' || c == '_' || '0' <= c <= '9'
}

/// Whether a text is one word: letters, digits and underscores, and no digit first.
pub open spec fn plain_word(w: Seq<char>) -> bool {
    &&& w.len() > 0
    &&& !('0' <= w[0] <= '9')
    &&& forall|i: int| 0 <= i < w.len() ==> word_char(#[trigger] w[i])
}

/// Whether a column can be shown so that it is read back: its name and its type are words,
/// and a primary key does not hold nothing.
pub open spec fn plain_column(c: ColumnDefView) -> bool {
    plain_word(c.name) && plain_word(c.col_type) && (c.is_primary_key ==> !c.nullable)
}

proof fn word_bytes(w: Seq<char>)
    requires
        plain_word(w),
    ensures
        is_ascii_chars(w),
        encode_utf8(w).len() == w.len(),
        starts_word(encode_utf8(w)[0]),
        forall|i: int| 0 <= i < w.len() ==> in_word(#[trigger] encode_utf8(w)[i]),
{
    assert forall|i: int| 0 <= i < w.len() implies '\0' <= #[trigger] w[i] <= '\u{7f}' by {
        assert(word_char(w[i]));
    }
    is_ascii_chars_encode_utf8(w);
    let b = encode_utf8(w);
    assert forall|i: int| 0 <= i < w.len() implies in_word(#[trigger] b[i]) by {
        assert(word_char(w[i]));
        assert(b[i] == w[i] as u8);
    }
    assert(word_char(w[0]));
    assert(b[0] == w[0] as u8);
}

/// Where a word that goes on to its end ends.
proof fn word_until(a: Seq<u8>, b: Seq<u8>, i: int)
    requires
        0 <= i <= a.len(),
        forall|k: int| 0 <= k < a.len() ==> in_word(#[trigger] a[k]),
        b.len() == 0 || !in_word(b[0]),
    ensures
        word_end(a + b, i) == a.len(),
    decreases a.len() - i,
{
    let e = a + b;
    if i < a.len() {
        assert(e[i] == a[i]);
        word_until(a, b, i + 1);
    } else if b.len() > 0 {
        assert(e[i] == b[0]);
    }
}

/// A word before what does not go on with it.
proof fn word_first(w: Seq<char>, b: Seq<u8>)
    requires
        plain_word(w),
        b.len() == 0 || !in_word(b[0]),
    ensures
        tokens_from(encode_utf8(w) + b, 0) == seq![word(w)] + tokens_from(b, 0),
{
    word_bytes(w);
    let a = encode_utf8(w);
    let e = a + b;
    word_until(a, b, 0);
    assert(e[0] == a[0]);
    assert(e.subrange(0, a.len() as int) =~= a);
    tokens_moved(a, b, 0);
}

/// A blank before anything.
proof fn blank_first(b: Seq<u8>)
    ensures
        tokens_from(seq![32u8] + b, 0) == tokens_from(b, 0),
{
    let e = seq![32u8] + b;
    assert(e[0] == 32);
    tokens_moved(seq![32u8], b, 0);
}

/// A mark before anything.
proof fn mark_first(m: u8, b: Seq<u8>)
    requires
        m == 40 || m == 41 || m == 44 || m == 59,
    ensures
        tokens_from(seq![m] + b, 0) == seq![TokenView::Oper(seq![m])] + tokens_from(b, 0),
{
    let e = seq![m] + b;
    assert(e[0] == m);
    assert(oper_end(e, 0) == 1);
    assert(e.subrange(0, 1) =~= seq![m]);
    tokens_moved(seq![m], b, 0);
}

/// The marks of statements that make tables.
proof fn marks()
    ensures
        oper("("@) == TokenView::Oper(seq![40u8]),
        oper(")"@) == TokenView::Oper(seq![41u8]),
        oper(","@) == TokenView::Oper(seq![44u8]),
        oper(";"@) == TokenView::Oper(seq![59u8]),
{
    reveal_strlit("(");
    reveal_strlit(")");
    reveal_strlit(",");
    reveal_strlit(";");
    is_ascii_chars_encode_utf8("("@);
    is_ascii_chars_encode_utf8(")"@);
    is_ascii_chars_encode_utf8(","@);
    is_ascii_chars_encode_utf8(";"@);
    assert("("@[0] as u8 == encode_utf8("("@)[0]);
    assert(")"@[0] as u8 == encode_utf8(")"@)[0]);
    assert(","@[0] as u8 == encode_utf8(","@)[0]);
    assert(";"@[0] as u8 == encode_utf8(";"@)[0]);
    assert(encode_utf8("("@) =~= seq![40u8]);
    assert(encode_utf8(")"@) =~= seq![41u8]);
    assert(encode_utf8(","@) =~= seq![44u8]);
    assert(encode_utf8(";"@) =~= seq![59u8]);
}

/// Words in capitals.
proof fn shouted()
    ensures
        plain_word("CREATE"@) && word("CREATE"@) == keyword("create"@, true),
        plain_word("TABLE"@) && word("TABLE"@) == keyword("table"@, true),
        plain_word("PRIMARY"@) && word("PRIMARY"@) == keyword("primary"@, true),
        plain_word("KEY"@) && word("KEY"@) == keyword("key"@, true),
        plain_word("NOT"@) && word("NOT"@) == keyword("not"@, true),
        plain_word("NULL"@) && word("NULL"@) == keyword("null"@, true),
{
    reveal(cased);
    reveal_strlit("CREATE");
    reveal_strlit("create");
    reveal_strlit("TABLE");
    reveal_strlit("table");
    reveal_strlit("PRIMARY");
    reveal_strlit("primary");
    reveal_strlit("KEY");
    reveal_strlit("key");
    reveal_strlit("NOT");
    reveal_strlit("not");
    reveal_strlit("NULL");
    reveal_strlit("null");
    assert(capitals("create"@) =~= "CREATE"@);
    assert(capitals("table"@) =~= "TABLE"@);
    assert(capitals("primary"@) =~= "PRIMARY"@);
    assert(capitals("key"@) =~= "KEY"@);
    assert(capitals("not"@) =~= "NOT"@);
    assert(capitals("null"@) =~= "NULL"@);
}

/// Two words after blanks, before what does not go on with the second.
proof fn two_words(u: Seq<char>, v: Seq<char>, b: Seq<u8>)
    requires
        plain_word(u),
        plain_word(v),
        b.len() == 0 || !in_word(b[0]),
    ensures
        tokens_from(
            seq![32u8] + (encode_utf8(u) + (seq![32u8] + (encode_utf8(v) + b))),
            0,
        ) == seq![word(u), word(v)] + tokens_from(b, 0),
{
    let z = encode_utf8(v) + b;
    let y = seq![32u8] + z;
    word_first(v, b);
    blank_first(z);
    assert(y[0] == 32);
    word_first(u, y);
    blank_first(encode_utf8(u) + y);
    assert(seq![word(u)] + (seq![word(v)] + tokens_from(b, 0)) =~= seq![word(u), word(v)]
        + tokens_from(b, 0));
}

/// The bytes of what is said of a column behind its type.
spec fn rule_bytes(c: ColumnDefView) -> Seq<u8> {
    if c.is_primary_key {
        seq![32u8] + (encode_utf8("PRIMARY"@) + (seq![32u8] + encode_utf8("KEY"@)))
    } else if !c.nullable {
        seq![32u8] + (encode_utf8("NOT"@) + (seq![32u8] + encode_utf8("NULL"@)))
    } else {
        seq![]
    }
}

/// The bytes of a column.
spec fn column_bytes(c: ColumnDefView) -> Seq<u8> {
    encode_utf8(c.name) + (seq![32u8] + (encode_utf8(c.col_type) + rule_bytes(c)))
}

proof fn blank_bytes()
    ensures
        is_ascii_chars(" "@),
        encode_utf8(" "@) == seq![32u8],
{
    reveal_strlit(" ");
    is_ascii_chars_encode_utf8(" "@);
    assert(" "@[0] as u8 == encode_utf8(" "@)[0]);
    assert(encode_utf8(" "@) =~= seq![32u8]);
}

/// A text of two words after blanks.
proof fn two_words_bytes(s: Seq<char>, u: Seq<char>, v: Seq<char>)
    requires
        plain_word(u),
        plain_word(v),
        s == " "@ + u + " "@ + v,
    ensures
        is_ascii_chars(s),
        encode_utf8(s) == seq![32u8] + (encode_utf8(u) + (seq![32u8] + encode_utf8(v))),
{
    blank_bytes();
    word_bytes(u);
    word_bytes(v);
    ascii_add(" "@, u);
    ascii_add(" "@ + u, " "@);
    ascii_add(" "@ + u + " "@, v);
    assert(encode_utf8(s) =~= seq![32u8] + (encode_utf8(u) + (seq![32u8] + encode_utf8(v))));
}

proof fn column_text_bytes(c: ColumnDefView)
    requires
        plain_column(c),
    ensures
        is_ascii_chars(column_text(c)),
        encode_utf8(column_text(c)) == column_bytes(c),
{
    blank_bytes();
    shouted();
    word_bytes(c.name);
    word_bytes(c.col_type);
    let s = if c.is_primary_key {
        " PRIMARY KEY"@
    } else if !c.nullable {
        " NOT NULL"@
    } else {
        ""@
    };
    reveal_strlit(" PRIMARY KEY");
    reveal_strlit(" NOT NULL");
    reveal_strlit("");
    reveal_strlit(" ");
    reveal_strlit("PRIMARY");
    reveal_strlit("KEY");
    reveal_strlit("NOT");
    reveal_strlit("NULL");
    if c.is_primary_key {
        assert(s =~= " "@ + "PRIMARY"@ + " "@ + "KEY"@);
        two_words_bytes(s, "PRIMARY"@, "KEY"@);
    } else if !c.nullable {
        assert(s =~= " "@ + "NOT"@ + " "@ + "NULL"@);
        two_words_bytes(s, "NOT"@, "NULL"@);
    } else {
        is_ascii_chars_encode_utf8(s);
        assert(encode_utf8(s) =~= seq![]);
    }
    ascii_add(c.name, " "@);
    ascii_add(c.name + " "@, c.col_type);
    ascii_add(c.name + " "@ + c.col_type, s);
    assert(encode_utf8(column_text(c)) =~= column_bytes(c));
}

proof fn word_has_no_bracket(w: Seq<char>)
    requires
        plain_word(w),
    ensures
        forall|base: Seq<char>, arg: Seq<char>| !(#[trigger] is_bracketed(w, base, arg)),
{
    reveal_strlit("(");
    reveal_strlit(")");
    assert forall|base: Seq<char>, arg: Seq<char>| !(#[trigger] is_bracketed(w, base, arg)) by {
        if is_bracketed(w, base, arg) {
            assert(w[base.len() as int] == '(');
            assert(word_char(w[base.len() as int]));
        }
    }
}

/// A column before what does not go on with a word.
proof fn column_first(c: ColumnDefView, b: Seq<u8>)
    requires
        plain_column(c),
        b.len() > 0,
        !in_word(b[0]),
    ensures
        tokens_from(column_bytes(c) + b, 0) == column_tokens(c, true) + tokens_from(b, 0),
{
    shouted();
    let r = rule_bytes(c);
    let rest = r + b;
    if c.is_primary_key {
        two_words("PRIMARY"@, "KEY"@, b);
        assert(rest =~= seq![32u8] + (encode_utf8("PRIMARY"@) + (seq![32u8] + (encode_utf8(
            "KEY"@,
        ) + b))));
        assert(rest[0] == 32);
    } else if !c.nullable {
        two_words("NOT"@, "NULL"@, b);
        assert(rest =~= seq![32u8] + (encode_utf8("NOT"@) + (seq![32u8] + (encode_utf8("NULL"@)
            + b))));
        assert(rest[0] == 32);
    } else {
        assert(rest =~= b);
    }
    let rules = rule_tokens(c.nullable, c.is_primary_key, true);
    assert(tokens_from(rest, 0) =~= rules + tokens_from(b, 0));
    word_has_no_bracket(c.col_type);
    assert(type_tokens(c.col_type) =~= seq![word(c.col_type)]);
    let z = encode_utf8(c.col_type) + rest;
    word_first(c.col_type, rest);
    blank_first(z);
    let y = seq![32u8] + z;
    assert(y[0] == 32);
    word_first(c.name, y);
    assert(column_bytes(c) + b =~= encode_utf8(c.name) + y);
    assert(column_tokens(c, true) + tokens_from(b, 0) =~= seq![word(c.name)] + (seq![
        word(c.col_type),
    ] + (rules + tokens_from(b, 0))));
}

proof fn column_texts_first(c: Seq<ColumnDefView>)
    requires
        c.len() > 1,
    ensures
        column_texts(c) == column_text(c[0]) + (", "@ + column_texts(c.skip(1))),
    decreases c.len(),
{
    let d = c.drop_last();
    if c.len() == 2 {
        assert(d =~= seq![c[0]]);
        assert(c.skip(1) =~= seq![c[1]]);
        assert(column_texts(d) == column_text(c[0]));
        assert(column_texts(c.skip(1)) == column_text(c[1]));
        assert(column_texts(c) =~= column_text(c[0]) + (", "@ + column_texts(c.skip(1))));
    } else {
        column_texts_first(d);
        let e = c.skip(1);
        assert(d.skip(1) =~= e.drop_last());
        assert(d[0] == c[0]);
        assert(column_texts(e) == column_texts(e.drop_last()) + ", "@ + column_text(e.last()));
        let a = column_text(c[0]);
        let b = column_texts(e.drop_last());
        let l = column_text(c.last());
        assert(column_texts(c) == (a + (", "@ + b)) + ", "@ + l);
        assert((a + (", "@ + b)) + ", "@ + l =~= a + (", "@ + (b + ", "@ + l)));
    }
}

/// The bytes of columns.
spec fn columns_bytes(c: Seq<ColumnDefView>) -> Seq<u8> {
    encode_utf8(column_texts(c))
}

proof fn columns_text_bytes(c: Seq<ColumnDefView>)
    requires
        c.len() > 0,
        forall|i: int| 0 <= i < c.len() ==> plain_column(#[trigger] c[i]),
    ensures
        is_ascii_chars(column_texts(c)),
        columns_bytes(c) == if c.len() == 1 {
            column_bytes(c[0])
        } else {
            column_bytes(c[0]) + (seq![44u8, 32u8] + columns_bytes(c.skip(1)))
        },
    decreases c.len(),
{
    column_text_bytes(c[0]);
    if c.len() > 1 {
        let rest = c.skip(1);
        assert forall|i: int| 0 <= i < rest.len() implies plain_column(#[trigger] rest[i]) by {
            assert(rest[i] == c[i + 1]);
        }
        columns_text_bytes(rest);
        column_texts_first(c);
        reveal_strlit(", ");
        is_ascii_chars_encode_utf8(", "@);
        assert(", "@[0] as u8 == encode_utf8(", "@)[0]);
        assert(", "@[1] as u8 == encode_utf8(", "@)[1]);
        assert(encode_utf8(", "@) =~= seq![44u8, 32u8]);
        ascii_add(", "@, column_texts(rest));
        ascii_add(column_text(c[0]), ", "@ + column_texts(rest));
    }
}

/// Columns before a bracket.
proof fn columns_first(c: Seq<ColumnDefView>, k: int, b: Seq<u8>)
    requires
        0 <= k < c.len(),
        forall|i: int| 0 <= i < c.len() ==> plain_column(#[trigger] c[i]),
        b.len() > 0,
        !in_word(b[0]),
    ensures
        tokens_from(columns_bytes(c.skip(k)) + b, 0) == listed_from(
            c,
            |x: ColumnDefView| column_tokens(x, true),
            k,
        ) + tokens_from(b, 0),
    decreases c.len() - k,
{
    let w = |x: ColumnDefView| column_tokens(x, true);
    let d = c.skip(k);
    assert(d[0] == c[k]);
    assert forall|i: int| 0 <= i < d.len() implies plain_column(#[trigger] d[i]) by {
        assert(d[i] == c[i + k]);
    }
    columns_text_bytes(d);
    if k + 1 == c.len() {
        column_first(c[k], b);
    } else {
        marks();
        assert(d.skip(1) =~= c.skip(k + 1));
        let z = columns_bytes(c.skip(k + 1)) + b;
        let y = seq![32u8] + z;
        let x = seq![44u8] + y;
        columns_first(c, k + 1, b);
        blank_first(z);
        mark_first(44, y);
        assert(x[0] == 44);
        column_first(c[k], x);
        assert(columns_bytes(d) + b =~= column_bytes(c[k]) + x);
        let l = listed_from(c, w, k + 1);
        assert(w(c[k]) + (seq![oper(","@)] + (l + tokens_from(b, 0))) =~= (w(c[k]) + (seq![
            oper(","@),
        ] + l)) + tokens_from(b, 0));
    }
}

/// The text that is shown for a table is read as the statement that makes it: with its
/// name, and with each column in its place, with its type and with what is said of it.
pub proof fn table_text_read_back(name: Seq<char>, c: Seq<ColumnDefView>)
    requires
        plain_word(name),
        forall|i: int| 0 <= i < c.len() ==> plain_column(#[trigger] c[i]),
    ensures
        read_alone(table_text(name, c)) == Some(
            StatementView::CreateTable(
                CreateTableStmtView { name: TableNameView { schema: None, name }, columns: c },
            ),
        ),
{
    let s = StatementView::CreateTable(
        CreateTableStmtView { name: TableNameView { schema: None, name }, columns: c },
    );
    let sql = table_text(name, c);
    let t = tokens_from(encode_utf8(sql), 0);
    let v = seq![s];
    table_text_tokens(name, c);
    assert forall|x: int| 0 <= x < v.len() implies statement_writable(#[trigger] v[x]) by {}
    statements_read_back(v, true);
    reveal_with_fuel(statements_from, 2);
    assert(statements_from(v, 0, true) =~= statement_tokens(s, true) + seq![oper(";"@)]);
}

proof fn table_text_tokens(name: Seq<char>, c: Seq<ColumnDefView>)
    requires
        plain_word(name),
        forall|i: int| 0 <= i < c.len() ==> plain_column(#[trigger] c[i]),
    ensures
        tokens_from(encode_utf8(table_text(name, c)), 0) == statement_tokens(
            StatementView::CreateTable(
                CreateTableStmtView { name: TableNameView { schema: None, name }, columns: c },
            ),
            true,
        ) + seq![oper(";"@)],
{
    let w = |x: ColumnDefView| column_tokens(x, true);
    let l = listed(c, w);
    shouted();
    marks();
    // The end of the text.
    let e5 = seq![59u8];
    let e4 = seq![41u8] + e5;
    mark_first(59, seq![]);
    assert(seq![59u8] + Seq::<u8>::empty() =~= e5);
    assert(tokens_from(Seq::<u8>::empty(), 0) =~= seq![]);
    assert(tokens_from(e5, 0) =~= seq![oper(";"@)]);
    mark_first(41, e5);
    let end = seq![oper(")"@)] + seq![oper(";"@)];
    assert(tokens_from(e4, 0) == end);
    // The columns.
    let e3 = columns_bytes(c) + e4;
    reveal_strlit("");
    if c.len() == 0 {
        is_ascii_chars_encode_utf8(""@);
        assert(columns_bytes(c) =~= seq![]);
        assert(e3 =~= e4);
        assert(tokens_from(e3, 0) =~= l + end);
        assert(is_ascii_chars(column_texts(c)));
    } else {
        columns_text_bytes(c);
        assert(e4[0] == 41);
        columns_first(c, 0, e4);
        assert(c.skip(0) =~= c);
    }
    // The name and the words before it.
    let e2 = seq![40u8] + e3;
    mark_first(40, e3);
    let e1 = seq![32u8] + e2;
    blank_first(e2);
    assert(e1[0] == 32);
    let n = encode_utf8(name);
    let e0 = n + e1;
    word_first(name, e1);
    let f0 = seq![32u8] + e0;
    blank_first(e0);
    assert(f0[0] == 32);
    let f1 = encode_utf8("TABLE"@) + f0;
    word_first("TABLE"@, f0);
    let f2 = seq![32u8] + f1;
    blank_first(f1);
    assert(f2[0] == 32);
    word_first("CREATE"@, f2);
    let all = encode_utf8("CREATE"@) + f2;
    table_text_bytes(name, c);
    assert(encode_utf8(table_text(name, c)) =~= all);
    let rest = l + end;
    let got = seq![word("CREATE"@)] + (seq![word("TABLE"@)] + (seq![word(name)] + (seq![
        oper("("@),
    ] + rest)));
    assert(tokens_from(all, 0) =~= got);
    let s = CreateTableStmtView { name: TableNameView { schema: None, name }, columns: c };
    assert(name_tokens(s.name) =~= seq![word(name)]);
    assert(statement_tokens(StatementView::CreateTable(s), true) + seq![oper(";"@)] =~= got);
}

/// The bytes of the text that is shown for a table.
proof fn table_text_bytes(name: Seq<char>, c: Seq<ColumnDefView>)
    requires
        plain_word(name),
        is_ascii_chars(column_texts(c)),
    ensures
        encode_utf8(table_text(name, c)) == encode_utf8("CREATE"@) + (seq![32u8] + (encode_utf8(
            "TABLE"@,
        ) + (seq![32u8] + (encode_utf8(name) + (seq![32u8] + (seq![40u8] + (columns_bytes(c) + (
        seq![41u8] + seq![59u8])))))))),
{
    shouted();
    blank_bytes();
    word_bytes(name);
    word_bytes("CREATE"@);
    word_bytes("TABLE"@);
    reveal_strlit("CREATE TABLE ");
    reveal_strlit("CREATE");
    reveal_strlit("TABLE");
    reveal_strlit(" ");
    reveal_strlit(" (");
    reveal_strlit(");");
    let h = "CREATE TABLE "@;
    assert(h =~= "CREATE"@ + " "@ + "TABLE"@ + " "@);
    ascii_add("CREATE"@, " "@);
    ascii_add("CREATE"@ + " "@, "TABLE"@);
    ascii_add("CREATE"@ + " "@ + "TABLE"@, " "@);
    is_ascii_chars_encode_utf8(" ("@);
    is_ascii_chars_encode_utf8(");"@);
    assert(" ("@[0] as u8 == encode_utf8(" ("@)[0]);
    assert(" ("@[1] as u8 == encode_utf8(" ("@)[1]);
    assert(");"@[0] as u8 == encode_utf8(");"@)[0]);
    assert(");"@[1] as u8 == encode_utf8(");"@)[1]);
    assert(encode_utf8(" ("@) =~= seq![32u8, 40u8]);
    assert(encode_utf8(");"@) =~= seq![41u8, 59u8]);
    ascii_add(h, name);
    ascii_add(h + name, " ("@);
    ascii_add(h + name + " ("@, column_texts(c));
    ascii_add(h + name + " ("@ + column_texts(c), ");"@);
    assert(encode_utf8(table_text(name, c)) =~= encode_utf8("CREATE"@) + (seq![32u8] + (
    encode_utf8("TABLE"@) + (seq![32u8] + (encode_utf8(name) + (seq![32u8] + (seq![40u8] + (
    columns_bytes(c) + (seq![41u8] + seq![59u8])))))))));
}

} // verus!
