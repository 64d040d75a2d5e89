use minisqlr::sql::ast::{
    BinaryOp, ColumnRef, Expr, JoinConstraint, JoinType, Literal, OrderDirection, SelectItemKind,
    Statement, TransactionKind, TransactionStmt, UnaryOp,
};
use minisqlr::sql::parser::{parse_sql, ParseError};

#[test]
fn parses_create_table() {
    let ast = parse_sql(
        "CREATE TABLE users (id INTEGER PRIMARY KEY, name TEXT NOT NULL, age INTEGER);",
    )
    .expect("parse");

    let Statement::CreateTable(stmt) = &ast.statements[0] else {
        panic!("expected create table");
    };
    assert_eq!(stmt.name.name, "users");
    assert_eq!(stmt.columns.len(), 3);
    assert!(stmt.columns[0].is_primary_key);
    assert!(!stmt.columns[1].nullable);
}

#[test]
fn parses_insert_rows() {
    let ast = parse_sql("insert into users (id, name) values (1, 'Ada'), (2, 'Linus')")
        .expect("parse");

    let Statement::Insert(stmt) = &ast.statements[0] else {
        panic!("expected insert");
    };
    assert_eq!(stmt.table.name, "users");
    assert_eq!(stmt.columns.as_ref().expect("columns"), &["id", "name"]);
    assert_eq!(stmt.rows.len(), 2);
    assert_eq!(stmt.rows[0][1], Expr::Literal(Literal::Text("Ada".into())));
}

#[test]
fn parses_select_where_order_limit() {
    let ast = parse_sql(
        "select id, name as username from users u where age >= 18 and name != 'bot' order by id desc limit 10",
    )
    .expect("parse");

    let Statement::Select(stmt) = &ast.statements[0] else {
        panic!("expected select");
    };
    assert_eq!(stmt.projection.len(), 2);
    assert_eq!(
        stmt.from.as_ref().expect("from").alias.as_deref(),
        Some("u")
    );
    assert!(stmt.where_clause.is_some());
    assert_eq!(stmt.order_by[0].direction, OrderDirection::Desc);
    assert_eq!(stmt.limit, Some(Expr::Literal(Literal::Integer(10))));
}

#[test]
fn parses_inner_join_with_on_clause() {
    let ast =
        parse_sql("select u.id from users u join orders o on u.id = o.user_id where o.id > 10")
            .expect("parse");

    let Statement::Select(stmt) = &ast.statements[0] else {
        panic!("expected select");
    };
    let from = stmt.from.as_ref().expect("from");
    assert_eq!(from.name.name, "users");
    assert_eq!(from.alias.as_deref(), Some("u"));
    assert_eq!(from.joins.len(), 1);

    let join = &from.joins[0];
    assert_eq!(join.join_type, JoinType::Inner);
    assert_eq!(join.table.name.name, "orders");
    assert_eq!(join.table.alias.as_deref(), Some("o"));
    assert_eq!(
        join.constraint,
        JoinConstraint::On(Expr::Binary {
            left: Box::new(Expr::Column(ColumnRef {
                table: Some("u".into()),
                name: "id".into(),
            })),
            op: BinaryOp::Eq,
            right: Box::new(Expr::Column(ColumnRef {
                table: Some("o".into()),
                name: "user_id".into(),
            })),
        })
    );
    assert!(stmt.where_clause.is_some());
}

#[test]
fn parses_join_chain_and_using_clause() {
    let ast = parse_sql(
        "select * from users u left outer join orders o using (user_id) cross join regions r",
    )
    .expect("parse");

    let Statement::Select(stmt) = &ast.statements[0] else {
        panic!("expected select");
    };
    let from = stmt.from.as_ref().expect("from");
    assert_eq!(from.joins.len(), 2);

    assert_eq!(from.joins[0].join_type, JoinType::Left);
    assert_eq!(from.joins[0].table.name.name, "orders");
    assert_eq!(from.joins[0].table.alias.as_deref(), Some("o"));
    assert_eq!(
        from.joins[0].constraint,
        JoinConstraint::Using(vec!["user_id".into()])
    );

    assert_eq!(from.joins[1].join_type, JoinType::Cross);
    assert_eq!(from.joins[1].table.name.name, "regions");
    assert_eq!(from.joins[1].table.alias.as_deref(), Some("r"));
    assert_eq!(from.joins[1].constraint, JoinConstraint::Unconstrained);
}

#[test]
fn parses_update_delete_and_transaction() {
    let ast = parse_sql(
        "begin; update users set name = 'Grace', age = age + 1 where id = 1; delete from users where age > 100; rollback;",
    )
    .expect("parse");

    assert!(matches!(
        ast.statements[0],
        Statement::Transaction(TransactionStmt {
            kind: TransactionKind::Begin
        })
    ));
    assert!(matches!(ast.statements[1], Statement::Update(_)));
    assert!(matches!(ast.statements[2], Statement::Delete(_)));
    assert!(matches!(
        ast.statements[3],
        Statement::Transaction(TransactionStmt {
            kind: TransactionKind::Rollback
        })
    ));
}

#[test]
fn expression_respects_arithmetic_precedence() {
    let expr = parse_single_expr("1 + 2 * 3").expect("parse expr");

    assert_eq!(
        expr,
        Expr::Binary {
            left: Box::new(Expr::Literal(Literal::Integer(1))),
            op: BinaryOp::Add,
            right: Box::new(Expr::Binary {
                left: Box::new(Expr::Literal(Literal::Integer(2))),
                op: BinaryOp::Multiply,
                right: Box::new(Expr::Literal(Literal::Integer(3))),
            }),
        }
    );
}

#[test]
fn expression_parentheses_override_precedence() {
    let expr = parse_single_expr("(1 + 2) * 3").expect("parse expr");

    assert_eq!(
        expr,
        Expr::Binary {
            left: Box::new(Expr::Binary {
                left: Box::new(Expr::Literal(Literal::Integer(1))),
                op: BinaryOp::Add,
                right: Box::new(Expr::Literal(Literal::Integer(2))),
            }),
            op: BinaryOp::Multiply,
            right: Box::new(Expr::Literal(Literal::Integer(3))),
        }
    );
}

#[test]
fn expression_parses_boolean_precedence() {
    let expr = parse_single_expr("a = 1 or b = 2 and not c").expect("parse expr");

    assert_eq!(
        expr,
        Expr::Binary {
            left: Box::new(Expr::Binary {
                left: Box::new(Expr::Column(ColumnRef::new("a"))),
                op: BinaryOp::Eq,
                right: Box::new(Expr::Literal(Literal::Integer(1))),
            }),
            op: BinaryOp::Or,
            right: Box::new(Expr::Binary {
                left: Box::new(Expr::Binary {
                    left: Box::new(Expr::Column(ColumnRef::new("b"))),
                    op: BinaryOp::Eq,
                    right: Box::new(Expr::Literal(Literal::Integer(2))),
                }),
                op: BinaryOp::And,
                right: Box::new(Expr::Unary {
                    op: UnaryOp::Not,
                    expr: Box::new(Expr::Column(ColumnRef::new("c"))),
                }),
            }),
        }
    );
}

#[test]
fn expression_parses_qualified_columns_and_functions() {
    let expr = parse_single_expr("lower(users.name) != 'admin'").expect("parse expr");

    assert_eq!(
        expr,
        Expr::Binary {
            left: Box::new(Expr::FunctionCall {
                name: "lower".into(),
                args: vec![Expr::Column(ColumnRef {
                    table: Some("users".into()),
                    name: "name".into(),
                })],
            }),
            op: BinaryOp::Ne,
            right: Box::new(Expr::Literal(Literal::Text("admin".into()))),
        }
    );
}

#[test]
fn expression_parses_nested_unary() {
    let expr = parse_single_expr("-+age").expect("parse expr");

    assert_eq!(
        expr,
        Expr::Unary {
            op: UnaryOp::Negate,
            expr: Box::new(Expr::Unary {
                op: UnaryOp::Positive,
                expr: Box::new(Expr::Column(ColumnRef::new("age"))),
            }),
        }
    );
}

fn parse_single_expr(sql: &str) -> Result<Expr, ParseError> {
    let ast = parse_sql(&format!("select {sql}"))?;
    let Statement::Select(stmt) = ast.statements.into_iter().next().expect("one statement")
    else {
        panic!("expected select");
    };
    let SelectItemKind::Expr(expr) = stmt
        .projection
        .into_iter()
        .next()
        .expect("one projection")
        .kind
    else {
        panic!("expected expression projection");
    };
    Ok(expr)
}
