use minisqlr::sql::ast::{
    BinaryOp, ColumnRef, Expr, JoinConstraint, JoinType, Literal, OrderDirection, SelectItemKind,
    SelectStmt, Statement, TableName,
};
use minisqlr::sql::parser::parse_sql;
use minisqlr::sql::relation::{projection_items, ProjectionItem, RelationExpr};

#[test]
fn lowers_select_into_scan_selection_projection() {
    let select = parse_select("select id, name as username from users where age >= 18");
    let relation = RelationExpr::from_select(&select).expect("relation");

    assert_eq!(
        relation,
        RelationExpr::Projection {
            input: Box::new(RelationExpr::Selection {
                input: Box::new(RelationExpr::TableScan {
                    table: TableName::new("users"),
                    alias: None,
                }),
                predicate: Expr::Binary {
                    left: Box::new(Expr::Column(ColumnRef::new("age"))),
                    op: BinaryOp::Ge,
                    right: Box::new(Expr::Literal(Literal::Integer(18))),
                },
            }),
            items: vec![
                ProjectionItem::Expr {
                    expr: Expr::Column(ColumnRef::new("id")),
                    alias: None,
                },
                ProjectionItem::Expr {
                    expr: Expr::Column(ColumnRef::new("name")),
                    alias: Some("username".to_string()),
                },
            ],
        }
    );
}

#[test]
fn lowers_select_without_from_to_one_row_projection() {
    let select = parse_select("select 1 + 2");
    let relation = RelationExpr::from_select(&select).expect("relation");

    assert!(matches!(
        relation,
        RelationExpr::Projection {
            input,
            items: _
        } if matches!(*input, RelationExpr::OneRow)
    ));
}

#[test]
fn lowers_join_chain_left_associatively() {
    let select = parse_select(
        "select * from users u join orders o on u.id = o.user_id left join payments p on o.id = p.order_id",
    );
    let relation = RelationExpr::from_select(&select).expect("relation");

    let RelationExpr::Projection { input, items } = relation else {
        panic!("expected projection");
    };
    assert_eq!(items, vec![ProjectionItem::Wildcard]);

    let RelationExpr::Join {
        left,
        right,
        join_type,
        constraint,
    } = *input
    else {
        panic!("expected outer join");
    };
    assert_eq!(join_type, JoinType::Left);
    assert!(matches!(constraint, JoinConstraint::On(_)));
    assert!(matches!(
        *right,
        RelationExpr::TableScan {
            table: TableName { name, .. },
            alias: Some(_)
        } if name == "payments"
    ));

    assert!(matches!(
        *left,
        RelationExpr::Join {
            join_type: JoinType::Inner,
            ..
        }
    ));
}

#[test]
fn order_and_limit_wrap_projection() {
    let select = parse_select("select id from users order by id desc limit 5");
    let relation = RelationExpr::from_select(&select).expect("relation");

    let RelationExpr::Limit { input, count } = relation else {
        panic!("expected limit");
    };
    assert_eq!(count, Expr::Literal(Literal::Integer(5)));

    let RelationExpr::Order { input, items } = *input else {
        panic!("expected order");
    };
    assert_eq!(items[0].direction, OrderDirection::Desc);
    assert!(matches!(*input, RelationExpr::Projection { .. }));
}

#[test]
fn projection_items_preserve_wildcard_and_alias() {
    let select = parse_select("select *, lower(name) as lname from users");
    let items = projection_items(&select.projection);

    assert_eq!(items.len(), 2);
    assert_eq!(items[0], ProjectionItem::Wildcard);
    assert!(matches!(
        &select.projection[1].kind,
        SelectItemKind::Expr(Expr::FunctionCall { name, .. }) if name == "lower"
    ));
    assert!(matches!(
        &items[1],
        ProjectionItem::Expr {
            alias: Some(alias),
            ..
        } if alias == "lname"
    ));
}

fn parse_select(sql: &str) -> SelectStmt {
    let ast = parse_sql(sql).expect("parse");
    match ast.statements.into_iter().next().expect("statement") {
        Statement::Select(select) => select,
        _ => panic!("expected select"),
    }
}
