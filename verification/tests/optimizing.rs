use minisqlr::sql::ast::{
    Expr, JoinType, Literal, OrderByItem, OrderDirection, SelectStmt, Statement,
};
use minisqlr::sql::cost::OptimizerConfig;
use minisqlr::sql::optimize::{CascadesOptimizer, OptimizeError, Planned};
use minisqlr::sql::parser::parse_sql;
use minisqlr::sql::plan::{PhysicalPlan, PhysicalPlanNode, RequiredProperties};
use minisqlr::sql::reals::{RealAnswers, RealQuestion};
use minisqlr::sql::relation::RelationExpr;

fn answer(q: &RealQuestion) -> Option<u64> {
    match q {
        RealQuestion::OfInteger(n) => Some((*n as f64).to_bits()),
        RealQuestion::OfText(s) => s.parse::<f64>().ok().map(f64::to_bits),
        RealQuestion::Sum(a, b) => Some((f64::from_bits(*a) + f64::from_bits(*b)).to_bits()),
        RealQuestion::Difference(a, b) => Some((f64::from_bits(*a) - f64::from_bits(*b)).to_bits()),
        RealQuestion::Product(a, b) => Some((f64::from_bits(*a) * f64::from_bits(*b)).to_bits()),
        RealQuestion::Quotient(a, b) => Some((f64::from_bits(*a) / f64::from_bits(*b)).to_bits()),
        RealQuestion::Whole(a) => {
            let x = f64::from_bits(*a);
            if x.is_finite() && x.fract() == 0.0 && x >= 0.0 && x <= u64::MAX as f64 {
                Some(x as u64)
            } else {
                None
            }
        }
        RealQuestion::Log2(a) => Some(f64::from_bits(*a).log2().to_bits()),
    }
}

fn optimize_with_required(
    optimizer: &mut CascadesOptimizer,
    relation: &RelationExpr,
    required: &RequiredProperties,
    bound: f64,
) -> Result<PhysicalPlan, OptimizeError> {
    let mut reals = RealAnswers::new();
    loop {
        let bits = bound.to_bits();
        match optimizer.optimize_with_required(relation, required.clone(), bits, &reals) {
            Planned::Plan(plan) => return Ok(plan),
            Planned::Failed(err) => return Err(err),
            Planned::Needs(q) => {
                let a = answer(&q);
                reals.learn(q, a);
            }
        }
    }
}

fn optimize(
    optimizer: &mut CascadesOptimizer,
    relation: &RelationExpr,
) -> Result<PhysicalPlan, OptimizeError> {
    let mut reals = RealAnswers::new();
    loop {
        match optimizer.optimize(relation, &reals) {
            Planned::Plan(plan) => return Ok(plan),
            Planned::Failed(err) => return Err(err),
            Planned::Needs(q) => {
                let a = answer(&q);
                reals.learn(q, a);
            }
        }
    }
}

#[test]
fn optimizes_simple_select_to_project_filter_scan() {
    let relation = relation_from_select("select id from users where age > 18");
    let mut optimizer = CascadesOptimizer::new(OptimizerConfig::default());

    let plan = optimize(&mut optimizer, &relation).expect("plan");

    assert!(matches!(plan.node, PhysicalPlanNode::Project { .. }));
    let PhysicalPlanNode::Project { input, .. } = plan.node else {
        panic!("expected project");
    };
    assert!(matches!(input.node, PhysicalPlanNode::Filter { .. }));
}

#[test]
fn sort_enforcer_satisfies_required_ordering() {
    let relation = relation_from_select("select id from users");
    let order_select = select_stmt("select id from users order by id desc");
    let required = RequiredProperties::ordered(order_select.order_by.clone());
    let mut optimizer = CascadesOptimizer::new(OptimizerConfig::default());

    let plan =
        optimize_with_required(&mut optimizer, &relation, &required, f64::INFINITY).expect("plan");

    assert!(plan.properties.satisfies(&required));
    assert!(contains_sort(&plan));
    assert_eq!(optimizer.stats().applied_enforcers, 1);
}

#[test]
fn inner_equality_join_uses_hash_join_when_cheaper() {
    let relation =
        relation_from_select("select * from users u join orders o on u.id = o.user_id");
    let mut optimizer = CascadesOptimizer::new(OptimizerConfig::default());

    let plan = optimize(&mut optimizer, &relation).expect("plan");

    assert!(contains_hash_join(&plan));
}

#[test]
fn cascades_rule_adds_join_commutation_alternative() {
    let relation =
        relation_from_select("select * from users u join orders o on u.id = o.user_id");
    let mut optimizer = CascadesOptimizer::new(OptimizerConfig::default());

    let _ = optimize(&mut optimizer, &relation).expect("plan");

    assert!(optimizer.stats().applied_rules > 0);
}

#[test]
fn pruning_can_reject_plan_under_tight_upper_bound() {
    let relation = relation_from_select("select * from users");
    let mut config = OptimizerConfig::default();
    config.initial_upper_bound = 0.01f64.to_bits();
    let mut optimizer = CascadesOptimizer::new(config);

    let err = optimize(&mut optimizer, &relation).expect_err("should prune");

    assert!(err.message.contains("no physical plan"));
    assert!(optimizer.stats().pruned_expressions > 0);
}

#[test]
fn logical_order_uses_sort_enforcer() {
    let relation = relation_from_select("select id from users order by id desc limit 5");
    let mut optimizer = CascadesOptimizer::new(OptimizerConfig::default());

    let plan = optimize(&mut optimizer, &relation).expect("plan");

    assert!(matches!(plan.node, PhysicalPlanNode::Limit { .. }));
    assert!(contains_sort(&plan));
    assert_eq!(f64::from_bits(plan.rows), 100.0);
}

fn relation_from_select(sql: &str) -> RelationExpr {
    let select = select_stmt(sql);
    RelationExpr::from_select(&select).expect("relation")
}

fn select_stmt(sql: &str) -> SelectStmt {
    let ast = parse_sql(sql).expect("parse");
    match ast.statements.into_iter().next().expect("statement") {
        Statement::Select(select) => select,
        _ => panic!("expected select"),
    }
}

fn contains_sort(plan: &PhysicalPlan) -> bool {
    match &plan.node {
        PhysicalPlanNode::Sort { .. } => true,
        PhysicalPlanNode::Filter { input, .. }
        | PhysicalPlanNode::Project { input, .. }
        | PhysicalPlanNode::Limit { input, .. } => contains_sort(input),
        PhysicalPlanNode::NestedLoopJoin { left, right, .. }
        | PhysicalPlanNode::HashJoin { left, right, .. } => {
            contains_sort(left) || contains_sort(right)
        }
        _ => false,
    }
}

fn contains_hash_join(plan: &PhysicalPlan) -> bool {
    match &plan.node {
        PhysicalPlanNode::HashJoin { join_type, .. } => *join_type == JoinType::Inner,
        PhysicalPlanNode::Filter { input, .. }
        | PhysicalPlanNode::Project { input, .. }
        | PhysicalPlanNode::Sort { input, .. }
        | PhysicalPlanNode::Limit { input, .. } => contains_hash_join(input),
        PhysicalPlanNode::NestedLoopJoin { left, right, .. } => {
            contains_hash_join(left) || contains_hash_join(right)
        }
        _ => false,
    }
}

#[test]
fn keeps_limit_count_expr() {
    let relation = relation_from_select("select id from users limit 7");
    let mut optimizer = CascadesOptimizer::new(OptimizerConfig::default());

    let plan = optimize(&mut optimizer, &relation).expect("plan");

    let PhysicalPlanNode::Limit { count, .. } = plan.node else {
        panic!("expected limit");
    };
    assert_eq!(count, Expr::Literal(Literal::Integer(7)));
}

#[test]
fn logical_order_direction_is_preserved() {
    let relation = relation_from_select("select id from users order by id desc");
    let mut optimizer = CascadesOptimizer::new(OptimizerConfig::default());

    let plan = optimize(&mut optimizer, &relation).expect("plan");

    let sort = find_sort(&plan).expect("sort");
    assert_eq!(sort[0].direction, OrderDirection::Desc);
}

fn find_sort(plan: &PhysicalPlan) -> Option<&[OrderByItem]> {
    match &plan.node {
        PhysicalPlanNode::Sort { items, .. } => Some(items),
        PhysicalPlanNode::Filter { input, .. }
        | PhysicalPlanNode::Project { input, .. }
        | PhysicalPlanNode::Limit { input, .. } => find_sort(input),
        PhysicalPlanNode::NestedLoopJoin { left, right, .. }
        | PhysicalPlanNode::HashJoin { left, right, .. } => {
            find_sort(left).or_else(|| find_sort(right))
        }
        _ => None,
    }
}

fn estimate(sql: &str) -> (f64, f64) {
    let relation = relation_from_select(sql);
    let mut optimizer = CascadesOptimizer::new(OptimizerConfig::default());
    let plan = optimize(&mut optimizer, &relation).expect("plan");
    (f64::from_bits(plan.cost), f64::from_bits(plan.rows))
}

#[test]
fn costs_and_rows_are_estimated() {
    let scan = 1.0 + 1000.0 * 0.01;
    assert_eq!(estimate("select 1"), (0.1 + 1.0 * 0.001, 1.0));
    assert_eq!(estimate("select a from t"), (scan + 1000.0 * 0.001, 1000.0));
    let filter = scan + 1000.0 * 0.002;
    assert_eq!(estimate("select a from t where a > 1"), (filter + 300.0 * 0.001, 300.0));
    let pairs = scan + scan + 1000.0 * 1000.0 * 0.00005;
    assert_eq!(estimate("select * from t cross join u"), (pairs + 1e6 * 0.001, 1e6));
    assert_eq!(estimate("select * from t left join u on t.a = u.a"), (pairs + 1.0, 1000.0));
    assert_eq!(estimate("select * from t full join u on t.a = u.a"), (pairs + 2.0, 2000.0));
    assert_eq!(
        estimate("select * from t join u on t.a < u.a"),
        (pairs + 300000.0 * 0.001, 300000.0)
    );
    let hashed = scan + scan + (1000.0 + 1000.0) * 0.02;
    assert_eq!(estimate("select * from t join u on t.a = u.a"), (hashed + 1.0, 1000.0));
    assert_eq!(estimate("select * from t join u using (a)"), (hashed + 1.0, 1000.0));
    let sorted = scan + 1000.0 * 1000f64.log2() * 0.004;
    let (cost, rows) = estimate("select a from t order by a");
    assert!((cost - (sorted + 1.0)).abs() < 1e-9);
    assert_eq!(rows, 1000.0);
    let limited = scan + 1000.0 * 0.001 + 100.0 * 0.0005;
    assert_eq!(estimate("select a from t limit 3"), (limited, 100.0));
}

#[test]
fn selections_of_selections_are_merged() {
    let relation = relation_from_select("select a from t where a > 1");
    let RelationExpr::Projection { input, items: _ } = relation else {
        panic!("expected projection");
    };
    let predicate = select_stmt("select a from t where a < 9").where_clause.expect("where");
    let relation = input.select(predicate);
    let mut optimizer = CascadesOptimizer::new(OptimizerConfig::default());
    let plan = optimize(&mut optimizer, &relation).expect("plan");
    assert_eq!(optimizer.stats().applied_rules, 1);
    let PhysicalPlanNode::Filter { predicate: _, input } = plan.node else {
        panic!("expected filter");
    };
    assert!(matches!(input.node, PhysicalPlanNode::SeqScan { .. }));
}
