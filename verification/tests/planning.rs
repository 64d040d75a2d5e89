use minisqlr::sql::ast::{OrderByItem, Statement};
use minisqlr::sql::optimize::{CascadesOptimizer, Planned};
use minisqlr::sql::parser::parse_sql;
use minisqlr::sql::plan::{PhysicalPlan, PhysicalPlanNode, PhysicalProperties};
use minisqlr::sql::planner::{compile_physical_plan, TableBinding, TableList};
use minisqlr::sql::reals::{RealAnswers, RealQuestion};
use minisqlr::sql::relation::RelationExpr;
use minisqlr::sql::schema::ColumnDef;

fn answer(q: &RealQuestion) -> Option<u64> {
    match q {
        RealQuestion::OfInteger(n) => Some((*n as f64).to_bits()),
        RealQuestion::OfText(s) => s.parse::<f64>().ok().map(f64::to_bits),
        RealQuestion::Sum(a, b) => Some((f64::from_bits(*a) + f64::from_bits(*b)).to_bits()),
        RealQuestion::Difference(a, b) => Some((f64::from_bits(*a) - f64::from_bits(*b)).to_bits()),
        RealQuestion::Product(a, b) => Some((f64::from_bits(*a) * f64::from_bits(*b)).to_bits()),
        RealQuestion::Quotient(a, b) => Some((f64::from_bits(*a) / f64::from_bits(*b)).to_bits()),
        RealQuestion::Whole(a) => {
            let x = f64::from_bits(*a);
            if x.is_finite() && x.fract() == 0.0 && x >= 0.0 && x <= u64::MAX as f64 {
                Some(x as u64)
            } else {
                None
            }
        }
        RealQuestion::Log2(a) => Some(f64::from_bits(*a).log2().to_bits()),
    }
}

fn column(name: &str) -> ColumnDef {
    ColumnDef {
        name: name.to_string(),
        col_type: "TEXT".to_string(),
        nullable: true,
        is_primary_key: false,
    }
}

fn with_table(mut list: TableList, name: &str, root_pgno: u32, columns: &[&str]) -> TableList {
    let columns = columns.iter().map(|name| column(name)).collect();
    list.push(name.to_string(), TableBinding { root_pgno, columns });
    list
}

#[test]
fn compiles_scan_filter_project() {
    let plan = plan_from_select("select id from users where age > 18");
    let catalog = with_table(TableList::new(), "users", 7, &["id", "age"]);

    let ops = compile_physical_plan(&plan, &catalog).expect("compile");
    let explains: Vec<String> = ops.iter().map(|op| op.explain()).collect();

    assert_eq!(explains[0], "OpenRead cursor=0 root=7");
    assert!(explains.iter().any(|op| op == "Rewind cursor=0"));
    assert!(explains.iter().any(|op| op.starts_with("Gt r")));
    assert!(explains.iter().any(|op| op.starts_with("IfNot r")));
    assert!(explains.iter().any(|op| op.starts_with("ResultRow [")));
    assert_eq!(explains.last().map(String::as_str), Some("Halt"));
}

#[test]
fn compiles_limit_as_result_guard() {
    let plan = plan_from_select("select id from users limit 2");
    let catalog = with_table(TableList::new(), "users", 3, &["id"]);

    let ops = compile_physical_plan(&plan, &catalog).expect("compile");
    let explains: Vec<String> = ops.iter().map(|op| op.explain()).collect();

    assert!(explains
        .iter()
        .any(|op| op.starts_with("IfResultsGe 2 -> pc=")));
}

#[test]
fn compiles_join_as_nested_loops() {
    let plan =
        plan_from_select("select u.id, o.id from users u join orders o on u.id = o.user_id");
    let catalog = with_table(
        with_table(TableList::new(), "users", 3, &["id"]),
        "orders",
        4,
        &["id", "user_id"],
    );

    let ops = compile_physical_plan(&plan, &catalog).expect("compile");
    let explains: Vec<String> = ops.iter().map(|op| op.explain()).collect();

    assert!(explains.iter().any(|op| op == "OpenRead cursor=0 root=3"));
    assert!(explains.iter().any(|op| op == "OpenRead cursor=1 root=4"));
    assert!(explains.iter().any(|op| op.starts_with("Eq r")));
}

#[test]
fn rejects_sort_until_vm_support_exists() {
    let input = plan_from_select("select id from users");
    let sorted = PhysicalPlan {
        node: PhysicalPlanNode::Sort {
            items: vec![order_item("select id from users order by id desc")],
            input: Box::new(input),
        },
        cost: 0.0f64.to_bits(),
        rows: 1.0f64.to_bits(),
        properties: PhysicalProperties::default(),
    };
    let catalog = with_table(TableList::new(), "users", 3, &["id"]);

    let err = match compile_physical_plan(&sorted, &catalog) {
        Ok(_) => panic!("sort unsupported"),
        Err(err) => err,
    };

    assert!(err.message.contains("Sort physical plan"));
}

fn plan_from_select(sql: &str) -> PhysicalPlan {
    let ast = parse_sql(sql).expect("parse");
    let select = match ast.statements.into_iter().next().expect("statement") {
        Statement::Select(select) => select,
        _ => panic!("expected select"),
    };
    let relation = RelationExpr::from_select(&select).expect("relation");
    let mut reals = RealAnswers::new();
    loop {
        match CascadesOptimizer::optimize_relation(&relation, &reals) {
            Planned::Plan(plan) => return plan,
            Planned::Failed(err) => panic!("{}", err.text()),
            Planned::Needs(q) => {
                let a = answer(&q);
                reals.learn(q, a);
            }
        }
    }
}

fn order_item(sql: &str) -> OrderByItem {
    let ast = parse_sql(sql).expect("parse");
    match ast.statements.into_iter().next().expect("statement") {
        Statement::Select(select) => select.order_by[0].clone(),
        _ => panic!("expected select"),
    }
}
