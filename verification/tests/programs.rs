use minisqlr::sql::codegen::{ASTNode, Coded, CodegenError};
use minisqlr::sql::operations::Operation;
use minisqlr::sql::parser::parse_sql;
use minisqlr::sql::planner::{TableBinding, TableList};
use minisqlr::sql::reals::{RealAnswers, RealQuestion};
use minisqlr::sql::schema::ColumnDef;

fn answer(q: &RealQuestion) -> Option<u64> {
    match q {
        RealQuestion::OfInteger(n) => Some((*n as f64).to_bits()),
        RealQuestion::OfText(s) => s.parse::<f64>().ok().map(f64::to_bits),
        RealQuestion::Sum(a, b) => Some((f64::from_bits(*a) + f64::from_bits(*b)).to_bits()),
        RealQuestion::Difference(a, b) => Some((f64::from_bits(*a) - f64::from_bits(*b)).to_bits()),
        RealQuestion::Product(a, b) => Some((f64::from_bits(*a) * f64::from_bits(*b)).to_bits()),
        RealQuestion::Quotient(a, b) => Some((f64::from_bits(*a) / f64::from_bits(*b)).to_bits()),
        RealQuestion::Whole(a) => {
            let x = f64::from_bits(*a);
            if x.is_finite() && x.fract() == 0.0 && x >= 0.0 && x <= u64::MAX as f64 {
                Some(x as u64)
            } else {
                None
            }
        }
        RealQuestion::Log2(a) => Some(f64::from_bits(*a).log2().to_bits()),
    }
}

fn column(name: &str) -> ColumnDef {
    ColumnDef {
        name: name.to_string(),
        col_type: "TEXT".to_string(),
        nullable: true,
        is_primary_key: false,
    }
}

fn with_table(mut list: TableList, name: &str, root_pgno: u32, columns: &[&str]) -> TableList {
    let columns = columns.iter().map(|name| column(name)).collect();
    list.push(name.to_string(), TableBinding { root_pgno, columns });
    list
}

fn to_oper<N: ASTNode>(node: &N, catalog: &TableList) -> Result<Vec<Operation>, CodegenError> {
    let mut reals = RealAnswers::new();
    loop {
        match node.to_oper(catalog, &reals) {
            Coded::Made(ops) => return Ok(ops),
            Coded::Failed(err) => return Err(err),
            Coded::Needs(q) => {
                let a = answer(&q);
                reals.learn(q, a);
            }
        }
    }
}

#[test]
fn root_codegen_adds_single_halt_after_select_body() {
    let ast = parse_sql("select id from users where age > 18").expect("parse");
    let catalog = with_table(TableList::new(), "users", 7, &["id", "age"]);

    let explains = explain(to_oper(&ast, &catalog).expect("codegen"));

    assert_eq!(explains[0], "OpenRead cursor=0 root=7");
    assert!(explains.iter().any(|op| op.starts_with("Gt r")));
    assert!(explains.iter().any(|op| op.starts_with("ResultRow [")));
    assert_eq!(explains.last().map(String::as_str), Some("Halt"));
    assert_eq!(explains.iter().filter(|op| *op == "Halt").count(), 1);
}

#[test]
fn insert_codegen_maps_column_list_and_defaults_missing_columns_to_null() {
    let ast = parse_sql("insert into users (id, name) values (1, 'Ada')").expect("parse");
    let catalog = with_table(TableList::new(), "users", 3, &["id", "name", "age"]);

    let explains = explain(to_oper(&ast.statements[0], &catalog).expect("codegen"));

    assert_eq!(explains[0], "OpenWrite cursor=0 root=3");
    assert!(explains.iter().any(|op| op == "Integer 1 -> r0"));
    assert!(explains.iter().any(|op| op == "Text len=3 -> r1"));
    assert!(explains.iter().any(|op| op == "Null -> r2"));
    assert!(explains
        .iter()
        .any(|op| op.starts_with("NewRowid cursor=0")));
    assert!(explains
        .iter()
        .any(|op| op.starts_with("InsertRow cursor=0")));
    assert_eq!(explains.last().map(String::as_str), Some("Close cursor=0"));
}

#[test]
fn update_codegen_scans_filters_and_rewrites_record() {
    let ast = parse_sql("update users set age = age + 1 where id = 1").expect("parse");
    let catalog = with_table(TableList::new(), "users", 3, &["id", "age"]);

    let explains = explain(to_oper(&ast.statements[0], &catalog).expect("codegen"));

    assert!(explains.iter().any(|op| op == "OpenWrite cursor=0 root=3"));
    assert!(explains.iter().any(|op| op.starts_with("Eq r")));
    assert!(explains.iter().any(|op| op.starts_with("IfNot r")));
    assert!(explains.iter().any(|op| op.starts_with("Add r")));
    assert!(explains.iter().any(|op| op.starts_with("Rowid cursor=0")));
    assert!(explains
        .iter()
        .any(|op| op.starts_with("UpdateRow cursor=0")));
}

#[test]
fn delete_codegen_scans_filters_and_deletes_by_rowid() {
    let ast = parse_sql("delete from users where age > 100").expect("parse");
    let catalog = with_table(TableList::new(), "users", 3, &["id", "age"]);

    let explains = explain(to_oper(&ast.statements[0], &catalog).expect("codegen"));

    assert!(explains.iter().any(|op| op == "OpenWrite cursor=0 root=3"));
    assert!(explains.iter().any(|op| op.starts_with("Gt r")));
    assert!(explains.iter().any(|op| op.starts_with("Rowid cursor=0")));
    assert!(explains
        .iter()
        .any(|op| op.starts_with("DeleteRow cursor=0")));
}

#[test]
fn insert_codegen_rejects_unknown_column() {
    let ast = parse_sql("insert into users (missing) values (1)").expect("parse");
    let catalog = with_table(TableList::new(), "users", 3, &["id"]);

    let err = match to_oper(&ast.statements[0], &catalog) {
        Ok(_) => panic!("expected codegen error"),
        Err(err) => err,
    };

    assert!(err.message.contains("unknown column"));
}

fn explain(ops: Vec<Operation>) -> Vec<String> {
    ops.into_iter().map(|op| op.explain()).collect()
}
