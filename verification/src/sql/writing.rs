//! Statements as tokens, and that what is read from the tokens of a statement is the
//! statement.
use vstd::prelude::*;
use vstd::utf8::{encode_utf8, is_ascii_chars, is_ascii_chars_encode_utf8};

use crate::engine::order::utf8_injective;
use crate::engine::value::text_of_utf8;
use crate::sql::ast::{BinaryOp, ColumnRefView, ExprView, LiteralView, UnaryOp};
use crate::sql::grammar::{
    binary_at, const_at, keyword_at, literal_of, oper_at, p_args, p_expr, p_exprs, p_ident, p_level,
    p_primary, p_rest, p_unary, unary_at, Parsed,
};
use crate::sql::lexer::TokenView;
use crate::sql::text::{
    all_digits, decimal, digit, has_sign, integer_of, is_digit, lower, same_bytes, signed_decimal,
    unsigned, value_of,
};

verus! {

broadcast use text_of_utf8;

// -- Words and operators ---------------------------------------

/// A word.
pub open spec fn word(k: Seq<char>) -> TokenView {
    TokenView::Ident(encode_utf8(k))
}

/// A word of small letters in capitals.
pub open spec fn capitals(k: Seq<char>) -> Seq<char> {
    Seq::new(k.len(), |i: int| ((k[i] as u32 - 32) as u32) as char)
}

/// A word of small letters as it is, or in capitals.
#[verifier::opaque]
pub open spec fn cased(k: Seq<char>, other: bool) -> Seq<char> {
    if other {
        capitals(k)
    } else {
        k
    }
}

/// A keyword; `other` asks for capitals.
pub open spec fn keyword(k: Seq<char>, other: bool) -> TokenView {
    TokenView::Ident(encode_utf8(cased(k, other)))
}

/// An operator.
pub open spec fn oper(k: Seq<char>) -> TokenView {
    TokenView::Oper(encode_utf8(k))
}

/// A constant.
pub open spec fn constant(k: Seq<char>) -> TokenView {
    TokenView::Const(encode_utf8(k))
}

/// Whether a name is a keyword, whatever its case.
pub open spec fn is_keyword(name: Seq<char>, k: Seq<char>) -> bool {
    same_bytes(encode_utf8(name), encode_utf8(k))
}

/// Whether tokens stand at a place.
pub open spec fn stands(t: Seq<TokenView>, i: int, w: Seq<TokenView>) -> bool {
    &&& 0 <= i
    &&& i + w.len() <= t.len()
    &&& forall|k: int| 0 <= k < w.len() ==> t[i + k] == #[trigger] w[k]
}

pub proof fn stands_add(t: Seq<TokenView>, i: int, a: Seq<TokenView>, b: Seq<TokenView>)
    requires
        stands(t, i, a + b),
    ensures
        stands(t, i, a),
        stands(t, i + a.len(), b),
{
    assert forall|k: int| 0 <= k < a.len() implies t[i + k] == #[trigger] a[k] by {
        assert((a + b)[k] == a[k]);
    }
    assert forall|k: int| 0 <= k < b.len() implies t[i + a.len() + k] == #[trigger] b[k] by {
        assert((a + b)[a.len() + k] == b[k]);
    }
}

pub proof fn stands_one(t: Seq<TokenView>, i: int, a: TokenView)
    requires
        stands(t, i, seq![a]),
    ensures
        0 <= i < t.len(),
        t[i] == a,
{
    assert(seq![a][0] == a);
    assert(t[i + 0] == a);
}

/// Whether a word is of small letters.
pub open spec fn is_word(k: Seq<char>) -> bool {
    forall|i: int| 0 <= i < k.len() ==> 'a' <= #[trigger] k[i] <= 'z'
}

/// The bytes of a word, in small letters or in capitals.
proof fn word_bytes(a: Seq<char>, other: bool)
    requires
        is_word(a),
    ensures
        ({
            let x = encode_utf8(cased(a, other));
            x.len() == a.len() && forall|i: int|
                0 <= i < a.len() ==> lower(#[trigger] x[i]) == a[i] as u8
        }),
{
    reveal(cased);
    let w = cased(a, other);
    assert forall|i: int| 0 <= i < w.len() implies '\0' <= #[trigger] w[i] <= '\u{7f}' by {
        assert('a' <= a[i] <= 'z');
    }
    assert(is_ascii_chars(w));
    is_ascii_chars_encode_utf8(w);
    let x = encode_utf8(w);
    assert forall|i: int| 0 <= i < a.len() implies lower(#[trigger] x[i]) == a[i] as u8 by {
        assert('a' <= a[i] <= 'z');
        assert(w[i] as u8 == x[i]);
    }
}

/// Whether a keyword is another one does not depend on how it is written.
pub proof fn words_apart(a: Seq<char>, other: bool, b: Seq<char>)
    requires
        is_word(a),
        is_word(b),
    ensures
        is_keyword(cased(a, other), b) <==> a == b,
{
    word_bytes(a, other);
    word_bytes(b, false);
    assert(cased(b, false) == b) by {
        reveal(cased);
    }
    let x = encode_utf8(cased(a, other));
    let y = encode_utf8(b);
    if same_bytes(x, y) {
        assert forall|i: int| 0 <= i < a.len() implies a[i] == b[i] by {
            assert('a' <= a[i] <= 'z');
            assert('a' <= b[i] <= 'z');
            assert(lower(x[i]) == a[i] as u8);
            assert(lower(y[i]) == b[i] as u8);
        }
        assert(a =~= b);
    }
    if a == b {
        assert forall|i: int| 0 <= i < x.len() implies lower(#[trigger] x[i]) == lower(y[i]) by {
            assert(lower(x[i]) == a[i] as u8);
            assert(lower(y[i]) == b[i] as u8);
        }
    }
}

/// A word is the keyword that it is, and no other, in small letters and in capitals.
pub proof fn word_is(t: Seq<TokenView>, i: int, a: Seq<char>)
    requires
        0 <= i < t.len(),
        t[i] == keyword(a, false) || t[i] == keyword(a, true),
        is_word(a),
    ensures
        forall|b: Seq<char>| is_word(b) ==> (#[trigger] keyword_at(t, i, b) <==> a == b),
{
    assert forall|b: Seq<char>| is_word(b) implies (#[trigger] keyword_at(t, i, b) <==> a == b) by {
        words_apart(a, t[i] != keyword(a, false), b);
    }
}

/// An operator is the operator that it is, and no other.
pub proof fn oper_is(t: Seq<TokenView>, i: int, a: Seq<char>)
    requires
        0 <= i < t.len(),
        t[i] == oper(a),
    ensures
        forall|b: Seq<char>| #[trigger] oper_at(t, i, b) <==> a == b,
{
    assert forall|b: Seq<char>| #[trigger] oper_at(t, i, b) <==> a == b by {
        if oper_at(t, i, b) {
            utf8_injective(a, b);
        }
    }
}

/// The operators of the language are what they look like.
pub proof fn opers()
    ensures
        "("@.len() == 1 && "("@[0] == '(',
        ")"@.len() == 1 && ")"@[0] == ')',
        ","@.len() == 1 && ","@[0] == ',',
        "."@.len() == 1 && "."@[0] == '.',
        ";"@.len() == 1 && ";"@[0] == ';',
        "="@.len() == 1 && "="@[0] == '=',
        "<"@.len() == 1 && "<"@[0] == '<',
        ">"@.len() == 1 && ">"@[0] == '>',
        "+"@.len() == 1 && "+"@[0] == '+',
        "-"@.len() == 1 && "-"@[0] == '-',
        "*"@.len() == 1 && "*"@[0] == '*',
        "/"@.len() == 1 && "/"@[0] == '/',
        "=="@.len() == 2 && "=="@[0] == '=' && "=="@[1] == '=',
        "!="@.len() == 2 && "!="@[0] == '!' && "!="@[1] == '=',
        "<>"@.len() == 2 && "<>"@[0] == '<' && "<>"@[1] == '>',
        "<="@.len() == 2 && "<="@[0] == '<' && "<="@[1] == '=',
        ">="@.len() == 2 && ">="@[0] == '>' && ">="@[1] == '=',
{
    reveal_strlit("(");
    reveal_strlit(")");
    reveal_strlit(",");
    reveal_strlit(".");
    reveal_strlit(";");
    reveal_strlit("=");
    reveal_strlit("<");
    reveal_strlit(">");
    reveal_strlit("+");
    reveal_strlit("-");
    reveal_strlit("*");
    reveal_strlit("/");
    reveal_strlit("==");
    reveal_strlit("!=");
    reveal_strlit("<>");
    reveal_strlit("<=");
    reveal_strlit(">=");
}

/// The words of expressions are what they look like.
pub proof fn expr_words()
    ensures
        is_word("and"@),
        is_word("or"@),
        is_word("not"@),
        is_word("null"@),
        "and"@.len() == 3 && "and"@[0] == 'a',
        "or"@.len() == 2,
        "not"@.len() == 3 && "not"@[0] == 'n',
        "null"@.len() == 4,
{
    reveal_strlit("and");
    reveal_strlit("or");
    reveal_strlit("not");
    reveal_strlit("null");
}

// -- Expressions -----------------------------------------------

/// How tight an operator binds; the smaller the tighter.
pub open spec fn rank_of(op: BinaryOp) -> nat {
    match op {
        BinaryOp::Multiply => 2,
        BinaryOp::Divide => 2,
        BinaryOp::Add => 3,
        BinaryOp::Subtract => 3,
        BinaryOp::Eq => 4,
        BinaryOp::Ne => 4,
        BinaryOp::Lt => 4,
        BinaryOp::Le => 4,
        BinaryOp::Gt => 4,
        BinaryOp::Ge => 4,
        BinaryOp::And => 5,
        BinaryOp::Or => 6,
    }
}

/// How tight an expression is bound.
pub open spec fn rank(e: ExprView) -> nat {
    match e {
        ExprView::Binary { left, op, right } => rank_of(op),
        ExprView::Unary { op, expr } => 1,
        _ => 0,
    }
}

/// An operator between two operands; `other` asks for its other spelling where it has two,
/// and for capitals where it is a word.
pub open spec fn binary_token(op: BinaryOp, other: bool) -> TokenView {
    match op {
        BinaryOp::Multiply => oper("*"@),
        BinaryOp::Divide => oper("/"@),
        BinaryOp::Add => oper("+"@),
        BinaryOp::Subtract => oper("-"@),
        BinaryOp::Eq => if other {
            oper("=="@)
        } else {
            oper("="@)
        },
        BinaryOp::Ne => if other {
            oper("<>"@)
        } else {
            oper("!="@)
        },
        BinaryOp::Lt => oper("<"@),
        BinaryOp::Le => oper("<="@),
        BinaryOp::Gt => oper(">"@),
        BinaryOp::Ge => oper(">="@),
        BinaryOp::And => keyword("and"@, other),
        BinaryOp::Or => keyword("or"@, other),
    }
}

/// An operator before its operand.
pub open spec fn unary_token(op: UnaryOp, other: bool) -> TokenView {
    match op {
        UnaryOp::Not => keyword("not"@, other),
        UnaryOp::Negate => oper("-"@),
        UnaryOp::Positive => oper("+"@),
    }
}

/// The text of a literal.
pub open spec fn literal_text(l: LiteralView) -> Seq<char> {
    match l {
        LiteralView::Integer(n) => signed_decimal(n as int),
        LiteralView::Real(s) => s,
        LiteralView::Text(s) => s,
        _ => seq![],
    }
}

/// Whether a literal can be written: a real that is not shortened, and a text that looks
/// like a number, are read as something else, and there is no way to write a blob.
pub open spec fn literal_writable(l: LiteralView) -> bool {
    match l {
        LiteralView::Null => true,
        LiteralView::Integer(n) => true,
        LiteralView::Real(s) => literal_of(s) == l,
        LiteralView::Text(s) => literal_of(s) == l,
        LiteralView::Blob(_) => false,
    }
}

/// Whether a name can start an operand.
pub open spec fn name_writable(name: Seq<char>) -> bool {
    !is_keyword(name, "null"@) && !is_keyword(name, "not"@)
}

/// Whether an expression can be written.
pub open spec fn writable(e: ExprView) -> bool
    decreases e,
{
    match e {
        ExprView::Literal(l) => literal_writable(l),
        ExprView::Column(c) => match c.table {
            Some(table) => name_writable(table),
            None => name_writable(c.name),
        },
        ExprView::Unary { op, expr } => writable(*expr),
        ExprView::Binary { left, op, right } => writable(*left) && writable(*right),
        ExprView::FunctionCall { name, args } => name_writable(name) && forall|i: int|
            0 <= i < args.len() ==> writable(#[trigger] args[i]),
    }
}

/// An expression where nothing looser than `r` may stand: in brackets where it is looser.
pub open spec fn written(e: ExprView, r: nat, other: bool) -> Seq<TokenView>
    decreases e, 1nat, 0int,
{
    if rank(e) <= r {
        bare(e, other)
    } else {
        seq![oper("("@)] + bare(e, other) + seq![oper(")"@)]
    }
}

/// An expression without brackets around it.
pub open spec fn bare(e: ExprView, other: bool) -> Seq<TokenView>
    decreases e, 0nat, 0int,
{
    match e {
        ExprView::Literal(LiteralView::Null) => seq![keyword("null"@, other)],
        ExprView::Literal(l) => seq![constant(literal_text(l))],
        ExprView::Column(c) => match c.table {
            Some(table) => seq![word(table), oper("."@), word(c.name)],
            None => seq![word(c.name)],
        },
        ExprView::Unary { op, expr } => seq![unary_token(op, other)] + written(*expr, 1, other),
        ExprView::Binary { left, op, right } => written(*left, rank_of(op), other) + (
        seq![binary_token(op, other)] + written(*right, (rank_of(op) - 1) as nat, other)),
        ExprView::FunctionCall { name, args } => seq![word(name), oper("("@)] + (args_from(
            args,
            0,
            other,
        ) + seq![oper(")"@)]),
    }
}

/// Expressions from place `k` on, with commas between them.
pub open spec fn args_from(v: Seq<ExprView>, k: int, other: bool) -> Seq<TokenView>
    decreases v, 0nat, v.len() - k,
{
    if !(0 <= k < v.len()) {
        seq![]
    } else if k + 1 == v.len() {
        written(v[k], 6, other)
    } else {
        written(v[k], 6, other) + (seq![oper(","@)] + args_from(v, k + 1, other))
    }
}

/// What is read where nothing looser than `r` may stand.
spec fn p_at(t: Seq<TokenView>, i: int, r: nat) -> Parsed<ExprView> {
    if r == 0 {
        p_primary(t, i)
    } else if r == 1 {
        p_unary(t, i)
    } else {
        p_level(t, i, (r - 2) as nat)
    }
}

/// What is read once an operand is.
spec fn p_on(t: Seq<TokenView>, j: int, r: nat, e: ExprView) -> Parsed<ExprView> {
    if r < 2 {
        Ok((e, j))
    } else {
        p_rest(t, j, (r - 2) as nat, e)
    }
}

/// Whether no operator that binds tighter than `r` stands at a place, nor what goes on
/// with a name.
spec fn parted(t: Seq<TokenView>, j: int, r: nat) -> bool {
    &&& !oper_at(t, j, "("@)
    &&& !oper_at(t, j, "."@)
    &&& forall|l: nat| l + 2 < r ==> #[trigger] binary_at(t, j, l) is None
}

/// Whether an expression ends at a place.
pub open spec fn ends(t: Seq<TokenView>, j: int) -> bool {
    &&& !oper_at(t, j, "("@)
    &&& !oper_at(t, j, "."@)
    &&& forall|l: nat| #[trigger] binary_at(t, j, l) is None
}

/// What is read at one rank is read at the next.
proof fn one_looser(t: Seq<TokenView>, i: int, j: int, r: nat, e: ExprView)
    requires
        0 <= i < j <= t.len(),
        p_at(t, i, r) == p_on(t, j, r, e),
        r == 0 ==> unary_at(t, i) is None,
        r >= 2 ==> binary_at(t, j, (r - 2) as nat) is None,
    ensures
        p_at(t, i, r + 1) == p_on(t, j, r + 1, e),
{
}

proof fn looser(t: Seq<TokenView>, i: int, j: int, k: nat, r: nat, e: ExprView)
    requires
        0 <= i < j <= t.len(),
        k <= r,
        p_at(t, i, k) == p_on(t, j, k, e),
        k == 0 ==> unary_at(t, i) is None,
        parted(t, j, r),
    ensures
        p_at(t, i, r) == p_on(t, j, r, e),
    decreases r,
{
    if k < r {
        looser(t, i, j, k, (r - 1) as nat, e);
        if r > 2 {
            assert(binary_at(t, j, (r - 3) as nat) is None);
        }
        one_looser(t, i, j, (r - 1) as nat, e);
    }
}

/// A decimal number is digits, and they are its value.
pub proof fn decimal_value(n: nat)
    ensures
        all_digits(decimal(n)),
        decimal(n).len() > 0,
        value_of(decimal(n)) == n,
    decreases n,
{
    let d = decimal(n);
    assert(is_digit(digit(n)));
    assert(digit(n) as u32 - 48 == n % 10);
    if n >= 10 {
        decimal_value(n / 10);
        assert(d.drop_last() =~= decimal(n / 10));
        assert forall|i: int| 0 <= i < d.len() implies is_digit(#[trigger] d[i]) by {
            if i < d.len() - 1 {
                assert(d[i] == decimal(n / 10)[i]);
            }
        }
    } else {
        assert(d.drop_last() =~= seq![]);
        assert(value_of(d.drop_last()) == 0);
    }
}

/// A number in decimal is read as the number.
pub proof fn integer_read_back(n: i64)
    ensures
        integer_of(signed_decimal(n as int)) == Some(n),
        literal_of(signed_decimal(n as int)) == LiteralView::Integer(n),
{
    let s = signed_decimal(n as int);
    if n < 0 {
        let m = (-(n as int)) as nat;
        decimal_value(m);
        assert(unsigned(s) =~= decimal(m));
        assert forall|i: int| 0 <= i < s.len() implies s[i] != '.' by {
            if i > 0 {
                assert(is_digit(decimal(m)[i - 1]));
            }
        }
    } else {
        decimal_value(n as nat);
        assert(is_digit(s[0]));
        assert(!has_sign(s));
        assert forall|i: int| 0 <= i < s.len() implies s[i] != '.' by {
            assert(is_digit(s[i]));
        }
    }
    assert(!s.contains('.'));
}

/// What an expression starts with.
pub proof fn first_token(e: ExprView, r: nat, other: bool)
    ensures
        written(e, r, other).len() > 0,
        written(e, r, other)[0] != oper(")"@),
        written(e, r, other)[0] != oper("*"@),
    decreases e, 1nat,
{
    opers();
    if rank(e) <= r {
        first_bare(e, other);
    } else {
        if oper("("@) == oper(")"@) {
            utf8_injective("("@, ")"@);
        }
        if oper("("@) == oper("*"@) {
            utf8_injective("("@, "*"@);
        }
        assert(written(e, r, other)[0] == oper("("@));
    }
}

proof fn first_bare(e: ExprView, other: bool)
    ensures
        bare(e, other).len() > 0,
        bare(e, other)[0] != oper(")"@),
        bare(e, other)[0] != oper("*"@),
    decreases e, 0nat,
{
    opers();
    match e {
        ExprView::Binary { left, op, right } => {
            first_token(*left, rank_of(op), other);
            assert(bare(e, other)[0] == written(*left, rank_of(op), other)[0]);
        },
        ExprView::Unary { op, expr } => {
            assert(bare(e, other)[0] == unary_token(op, other));
            if oper("-"@) == oper(")"@) {
                utf8_injective("-"@, ")"@);
            }
            if oper("-"@) == oper("*"@) {
                utf8_injective("-"@, "*"@);
            }
            if oper("+"@) == oper(")"@) {
                utf8_injective("+"@, ")"@);
            }
            if oper("+"@) == oper("*"@) {
                utf8_injective("+"@, "*"@);
            }
        },
        ExprView::FunctionCall { name, args } => {
            assert(bare(e, other)[0] == word(name));
        },
        _ => {},
    }
}

/// The operator between two operands is read, at its own rank and at no other.
proof fn binary_read(t: Seq<TokenView>, i: int, op: BinaryOp, other: bool)
    requires
        0 <= i < t.len(),
        t[i] == binary_token(op, other),
    ensures
        forall|l: nat| #[trigger]
            binary_at(t, i, l) == (if l + 2 == rank_of(op) || (l > 4 && op == BinaryOp::Or) {
                Some(op)
            } else {
                None
            }),
        !oper_at(t, i, "("@),
        !oper_at(t, i, "."@),
        unary_at(t, i) is Some ==> rank_of(op) == 3,
{
    opers();
    expr_words();
    match op {
        BinaryOp::And => word_is(t, i, "and"@),
        BinaryOp::Or => word_is(t, i, "or"@),
        BinaryOp::Multiply => oper_is(t, i, "*"@),
        BinaryOp::Divide => oper_is(t, i, "/"@),
        BinaryOp::Add => oper_is(t, i, "+"@),
        BinaryOp::Subtract => oper_is(t, i, "-"@),
        BinaryOp::Eq => if other {
            oper_is(t, i, "=="@)
        } else {
            oper_is(t, i, "="@)
        },
        BinaryOp::Ne => if other {
            oper_is(t, i, "<>"@)
        } else {
            oper_is(t, i, "!="@)
        },
        BinaryOp::Lt => oper_is(t, i, "<"@),
        BinaryOp::Le => oper_is(t, i, "<="@),
        BinaryOp::Gt => oper_is(t, i, ">"@),
        BinaryOp::Ge => oper_is(t, i, ">="@),
    }
}

proof fn unary_read(t: Seq<TokenView>, i: int, op: UnaryOp, other: bool)
    requires
        0 <= i < t.len(),
        t[i] == unary_token(op, other),
    ensures
        unary_at(t, i) == Some(op),
{
    opers();
    expr_words();
    match op {
        UnaryOp::Not => word_is(t, i, "not"@),
        UnaryOp::Negate => oper_is(t, i, "-"@),
        UnaryOp::Positive => oper_is(t, i, "+"@),
    }
}

/// Expressions end before a bracket and before a comma.
pub proof fn ends_before_mark(t: Seq<TokenView>, i: int, mark: Seq<char>)
    requires
        0 <= i < t.len(),
        t[i] == oper(mark),
        mark == ")"@ || mark == ","@ || mark == ";"@,
    ensures
        ends(t, i),
        oper_at(t, i, ","@) <==> mark == ","@,
        oper_at(t, i, ")"@) <==> mark == ")"@,
        oper_at(t, i, ";"@) <==> mark == ";"@,
{
    opers();
    oper_is(t, i, mark);
    assert forall|l: nat| #[trigger] binary_at(t, i, l) is None by {}
}

proof fn ends_parted(t: Seq<TokenView>, j: int, r: nat)
    requires
        ends(t, j),
    ensures
        parted(t, j, r),
{
}

/// What is written where nothing looser than `r` may stand is read there.
proof fn written_read(e: ExprView, r: nat, other: bool, t: Seq<TokenView>, i: int)
    requires
        writable(e),
        stands(t, i, written(e, r, other)),
        parted(t, i + written(e, r, other).len(), r),
    ensures
        p_at(t, i, r) == p_on(t, i + written(e, r, other).len(), r, e),
    decreases e, 1nat, 0int,
{
    let j = i + written(e, r, other).len();
    first_token(e, r, other);
    if rank(e) <= r {
        bare_read(e, other, t, i);
        looser(t, i, j, rank(e), r, e);
    } else {
        let w = bare(e, other);
        let o = seq![oper("("@)];
        let c = seq![oper(")"@)];
        stands_add(t, i, o + w, c);
        stands_add(t, i, o, w);
        stands_one(t, i, oper("("@));
        stands_one(t, j - 1, oper(")"@));
        opers();
        oper_is(t, i, "("@);
        oper_is(t, j - 1, ")"@);
        ends_before_mark(t, j - 1, ")"@);
        ends_parted(t, j - 1, rank(e));
        ends_parted(t, j - 1, 6);
        bare_read(e, other, t, i + 1);
        first_bare(e, other);
        looser(t, i + 1, j - 1, rank(e), 6, e);
        assert(binary_at(t, j - 1, 4) is None);
        assert(p_level(t, i + 1, 4) == Ok::<(ExprView, int), (int, Seq<char>)>((e, j - 1)));
        assert(p_primary(t, i) == Ok::<(ExprView, int), (int, Seq<char>)>((e, j)));
        looser(t, i, j, 0, r, e);
    }
}

/// What is written without brackets around it is read.
proof fn bare_read(e: ExprView, other: bool, t: Seq<TokenView>, i: int)
    requires
        writable(e),
        stands(t, i, bare(e, other)),
        parted(t, i + bare(e, other).len(), rank(e)),
    ensures
        p_at(t, i, rank(e)) == p_on(t, i + bare(e, other).len(), rank(e), e),
        rank(e) == 0 ==> unary_at(t, i) is None,
    decreases e, 0nat, 1int,
{
    match e {
        ExprView::Binary { left, op, right } => binary_bare_read(e, other, t, i),
        ExprView::Unary { op, expr } => {
            let o = seq![unary_token(op, other)];
            let b = written(*expr, 1, other);
            stands_add(t, i, o, b);
            stands_one(t, i, unary_token(op, other));
            unary_read(t, i, op, other);
            assert(parted(t, i + 1 + b.len(), 1));
            written_read(*expr, 1, other, t, i + 1);
        },
        ExprView::Literal(l) => literal_bare_read(l, other, t, i),
        ExprView::Column(c) => column_bare_read(c, other, t, i),
        ExprView::FunctionCall { name, args } => call_bare_read(e, other, t, i),
    }
}

proof fn literal_bare_read(l: LiteralView, other: bool, t: Seq<TokenView>, i: int)
    requires
        literal_writable(l),
        stands(t, i, bare(ExprView::Literal(l), other)),
    ensures
        p_primary(t, i) == Ok::<(ExprView, int), (int, Seq<char>)>((ExprView::Literal(l), i + 1)),
        bare(ExprView::Literal(l), other).len() == 1,
        unary_at(t, i) is None,
{
    opers();
    expr_words();
    match l {
        LiteralView::Null => {
            stands_one(t, i, keyword("null"@, other));
            word_is(t, i, "null"@);
        },
        _ => {
            stands_one(t, i, constant(literal_text(l)));
            match l {
                LiteralView::Integer(n) => integer_read_back(n),
                _ => {},
            }
            assert(const_at(t, i) == Some(literal_text(l)));
        },
    }
}

proof fn column_bare_read(c: ColumnRefView, other: bool, t: Seq<TokenView>, i: int)
    requires
        writable(ExprView::Column(c)),
        stands(t, i, bare(ExprView::Column(c), other)),
        parted(t, i + bare(ExprView::Column(c), other).len(), 0),
    ensures
        p_primary(t, i) == Ok::<(ExprView, int), (int, Seq<char>)>(
            (ExprView::Column(c), i + bare(ExprView::Column(c), other).len()),
        ),
        unary_at(t, i) is None,
{
    opers();
    match c.table {
        Some(table) => {
            let w = seq![word(table), oper("."@), word(c.name)];
            assert(t[i + 0] == w[0]);
            assert(t[i + 1] == w[1]);
            assert(t[i + 2] == w[2]);
            oper_is(t, i + 1, "."@);
            assert(p_ident(t, i) == Ok::<(Seq<char>, int), (int, Seq<char>)>((table, i + 1)));
            assert(p_ident(t, i + 2) == Ok::<(Seq<char>, int), (int, Seq<char>)>((c.name, i + 3)));
        },
        None => {
            stands_one(t, i, word(c.name));
            assert(p_ident(t, i) == Ok::<(Seq<char>, int), (int, Seq<char>)>((c.name, i + 1)));
        },
    }
}

/// An operator and its second operand.
proof fn operator_step(
    t: Seq<TokenView>,
    i: int,
    m: int,
    j: int,
    k: nat,
    left: ExprView,
    op: BinaryOp,
    right: ExprView,
)
    requires
        k >= 2,
        0 <= m < j <= t.len(),
        p_at(t, i, k) == p_on(t, m, k, left),
        binary_at(t, m, (k - 2) as nat) == Some(op),
        p_at(t, m + 1, (k - 1) as nat) == Ok::<(ExprView, int), (int, Seq<char>)>((right, j)),
    ensures
        p_at(t, i, k) == p_on(
            t,
            j,
            k,
            ExprView::Binary { left: Box::new(left), op, right: Box::new(right) },
        ),
{
}

proof fn binary_bare_read(e: ExprView, other: bool, t: Seq<TokenView>, i: int)
    requires
        e is Binary,
        writable(e),
        stands(t, i, bare(e, other)),
        parted(t, i + bare(e, other).len(), rank(e)),
    ensures
        p_at(t, i, rank(e)) == p_on(t, i + bare(e, other).len(), rank(e), e),
    decreases e, 0nat, 0int,
{
    match e {
        ExprView::Binary { left, op, right } => {
            let j = i + bare(e, other).len();
            let k = rank_of(op);
            let a = written(*left, k, other);
            let o = seq![binary_token(op, other)];
            let b = written(*right, (k - 1) as nat, other);
            let m = i + a.len();
            stands_add(t, i, a, o + b);
            stands_add(t, m, o, b);
            stands_one(t, m, binary_token(op, other));
            binary_read(t, m, op, other);
            assert(parted(t, m, k));
            written_read(*left, k, other, t, i);
            assert(j == m + 1 + b.len());
            assert(parted(t, j, (k - 1) as nat));
            written_read(*right, (k - 1) as nat, other, t, m + 1);
            first_token(*right, (k - 1) as nat, other);
            if k > 2 {
                assert(binary_at(t, j, (k - 3) as nat) is None);
            }
            operator_step(t, i, m, j, k, *left, op, *right);
        },
        _ => {},
    }
}

/// A name and what stands in brackets behind it.
proof fn call_step(t: Seq<TokenView>, i: int, j: int, name: Seq<char>, args: Seq<ExprView>)
    requires
        0 <= i,
        i + 1 < t.len(),
        t[i] == word(name),
        name_writable(name),
        oper_at(t, i + 1, "("@),
        p_args(t, i + 2) == Ok::<(Seq<ExprView>, int), (int, Seq<char>)>((args, j)),
        oper_at(t, j, ")"@),
    ensures
        p_primary(t, i) == Ok::<(ExprView, int), (int, Seq<char>)>(
            (ExprView::FunctionCall { name, args }, j + 1),
        ),
        unary_at(t, i) is None,
{
    assert(p_ident(t, i) == Ok::<(Seq<char>, int), (int, Seq<char>)>((name, i + 1)));
}

proof fn call_bare_read(e: ExprView, other: bool, t: Seq<TokenView>, i: int)
    requires
        e is FunctionCall,
        writable(e),
        stands(t, i, bare(e, other)),
    ensures
        p_primary(t, i) == Ok::<(ExprView, int), (int, Seq<char>)>((e, i + bare(e, other).len())),
        unary_at(t, i) is None,
    decreases e, 0nat, 0int,
{
    match e {
        ExprView::FunctionCall { name, args } => {
            let j = i + bare(e, other).len();
            let o = seq![word(name), oper("("@)];
            let a = args_from(args, 0, other);
            let c = seq![oper(")"@)];
            stands_add(t, i, o, a + c);
            stands_add(t, i + 2, a, c);
            stands_one(t, i + 2 + a.len(), oper(")"@));
            assert(j - 1 == i + 2 + a.len());
            assert(t[i + 0] == o[0]);
            assert(t[i + 1] == o[1]);
            oper_is(t, i + 1, "("@);
            oper_is(t, j - 1, ")"@);
            ends_before_mark(t, j - 1, ")"@);
            if args.len() == 0 {
                assert(args =~= seq![]);
            } else {
                opers();
                args_read(args, 0, other, t, i + 2);
                assert(args.skip(0) =~= args);
                first_token(args[0], 6, other);
                assert(a[0] == written(args[0], 6, other)[0]);
                assert(t[i + 2 + 0] == a[0]);
                assert(!oper_at(t, i + 2, ")"@));
            }
            call_step(t, i, j - 1, name, args);
        },
        _ => {},
    }
}

/// Expressions with commas between them are read.
pub proof fn args_read(v: Seq<ExprView>, k: int, other: bool, t: Seq<TokenView>, i: int)
    requires
        0 <= k < v.len(),
        forall|x: int| 0 <= x < v.len() ==> writable(#[trigger] v[x]),
        stands(t, i, args_from(v, k, other)),
        ends(t, i + args_from(v, k, other).len()),
        !oper_at(t, i + args_from(v, k, other).len(), ","@),
    ensures
        p_exprs(t, i) == Ok::<(Seq<ExprView>, int), (int, Seq<char>)>(
            (v.skip(k), i + args_from(v, k, other).len()),
        ),
    decreases v, 0nat, v.len() - k,
{
    let j = i + args_from(v, k, other).len();
    let a = written(v[k], 6, other);
    let m = i + a.len();
    first_token(v[k], 6, other);
    if k + 1 == v.len() {
        ends_parted(t, j, 6);
        written_read(v[k], 6, other, t, i);
        assert(binary_at(t, j, 4) is None);
        assert(v.skip(k) =~= seq![v[k]]);
    } else {
        let c = seq![oper(","@)];
        let b = args_from(v, k + 1, other);
        stands_add(t, i, a, c + b);
        stands_add(t, m, c, b);
        stands_one(t, m, oper(","@));
        opers();
        oper_is(t, m, ","@);
        ends_before_mark(t, m, ","@);
        ends_parted(t, m, 6);
        written_read(v[k], 6, other, t, i);
        assert(binary_at(t, m, 4) is None);
        assert(j == m + 1 + b.len());
        args_read(v, k + 1, other, t, m + 1);
        assert(v.skip(k) =~= seq![v[k]] + v.skip(k + 1));
    }
}

/// What an expression is written as is read as the expression.
pub proof fn expression_read_back(e: ExprView, other: bool, t: Seq<TokenView>, i: int)
    requires
        writable(e),
        stands(t, i, written(e, 6, other)),
        ends(t, i + written(e, 6, other).len()),
    ensures
        p_expr(t, i) == Ok::<(ExprView, int), (int, Seq<char>)>(
            (e, i + written(e, 6, other).len()),
        ),
{
    let j = i + written(e, 6, other).len();
    ends_parted(t, j, 6);
    written_read(e, 6, other, t, i);
    assert(binary_at(t, j, 4) is None);
}

} // verus!
