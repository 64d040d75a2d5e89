use minisqlr::engine::btree::BTree;
use minisqlr::engine::journal::FileOp;
use minisqlr::engine::pages::Pager;
use minisqlr::engine::value::BTreeDataType;
use minisqlr::sql::ast::Statement;
use minisqlr::sql::codegen::{ASTNode, Coded};
use minisqlr::sql::parser::parse_sql;
use minisqlr::sql::planner::{TableBinding, TableList};
use minisqlr::sql::reals::{RealAnswers, RealQuestion};
use minisqlr::sql::schema::{ColumnDef, SchemaManager, SchemaType};
use minisqlr::sql::session::{
    create_table_text, parse_meta, show_value, sql_is_complete, take_line, Input, Meta, Session,
};
use minisqlr::sql::vm::Run;

fn answer(q: &RealQuestion) -> Option<u64> {
    match q {
        RealQuestion::OfInteger(n) => Some((*n as f64).to_bits()),
        RealQuestion::OfText(s) => s.parse::<f64>().ok().map(f64::to_bits),
        RealQuestion::Sum(a, b) => Some((f64::from_bits(*a) + f64::from_bits(*b)).to_bits()),
        RealQuestion::Difference(a, b) => Some((f64::from_bits(*a) - f64::from_bits(*b)).to_bits()),
        RealQuestion::Product(a, b) => Some((f64::from_bits(*a) * f64::from_bits(*b)).to_bits()),
        RealQuestion::Quotient(a, b) => Some((f64::from_bits(*a) / f64::from_bits(*b)).to_bits()),
        RealQuestion::Whole(a) => {
            let x = f64::from_bits(*a);
            if x.is_finite() && x.fract() == 0.0 && x >= 0.0 && x <= u64::MAX as f64 {
                Some(x as u64)
            } else {
                None
            }
        }
        RealQuestion::Log2(a) => Some(f64::from_bits(*a).log2().to_bits()),
    }
}

fn new_session() -> Session {
    let db = Pager::create_or_opendb(None);
    let btree = BTree::new(Pager::new(db, None, "test".to_string()), 2);
    Session::open(btree, true).expect("session")
}

/// Performs file operations on the contents of the two files.
fn perform(db: &mut Vec<u8>, journal: &mut Option<Vec<u8>>, ops: &[FileOp]) {
    let write = |file: &mut Vec<u8>, offset: usize, bytes: &[u8]| {
        if file.len() < offset + bytes.len() {
            file.resize(offset + bytes.len(), 0);
        }
        file[offset..offset + bytes.len()].copy_from_slice(bytes);
    };
    for op in ops {
        match op {
            FileOp::WriteDb { offset, bytes } => write(db, *offset, bytes),
            FileOp::SetDbLen { len } => db.resize(*len, 0),
            FileOp::CreateJournal { bytes } => *journal = Some(bytes.clone()),
            FileOp::WriteJournal { offset, bytes } => {
                write(journal.as_mut().expect("journal"), *offset, bytes)
            }
            FileOp::SetJournalLen { len } => journal.as_mut().expect("journal").resize(*len, 0),
            FileOp::DeleteJournal => *journal = None,
            _ => {}
        }
    }
}

/// A session on the files that another one, which began with none, has written.
fn reopened(session: &Session) -> Session {
    let mut db = Pager::create_or_opendb(None);
    let mut journal = None;
    perform(&mut db, &mut journal, &session.vm.btree.pager.journal.ops);
    let btree = BTree::new(Pager::new(db, journal, "test".to_string()), 2);
    Session::open(btree, false).expect("session")
}

fn columns_of(json: &str) -> Vec<ColumnDef> {
    let value: serde_json::Value = serde_json::from_str(json).expect("json");
    value["columns"]
        .as_array()
        .expect("columns")
        .iter()
        .map(|c| ColumnDef {
            name: c["name"].as_str().expect("name").to_string(),
            col_type: c["col_type"].as_str().expect("type").to_string(),
            nullable: c["nullable"].as_bool().expect("nullable"),
            is_primary_key: c["is_primary_key"].as_bool().expect("key"),
        })
        .collect()
}

fn catalog(btree: &mut BTree) -> TableList {
    let mut list = TableList::new();
    for info in SchemaManager::list_schema(btree) {
        if info.schema_type == SchemaType::Table {
            let columns = columns_of(&info.structure_json);
            list.push(info.name.clone(), TableBinding { root_pgno: info.root_pgno, columns });
        }
    }
    list
}

fn execute(session: &mut Session, statement: &Statement) -> Result<Vec<Vec<String>>, String> {
    let mut reals = RealAnswers::new();
    assert!(session.begin_statement(statement));
    let tables = catalog(&mut session.vm.btree);
    let ops = loop {
        match statement.to_oper(&tables, &reals) {
            Coded::Made(ops) => break ops,
            Coded::Failed(err) => return Err(err.text()),
            Coded::Needs(q) => {
                let a = answer(&q);
                reals.learn(q, a);
            }
        }
    };
    let mut end = session.vm.run(&ops, &reals, 7);
    let ran = loop {
        match end {
            Run::Finished => break Ok(()),
            Run::Failed(err) => break Err(err.text()),
            Run::Needs(q) => {
                let a = answer(&q);
                reals.learn(q, a);
            }
            Run::Paused => {}
        }
        end = session.vm.resume(&ops, &reals, 7);
    };
    let written = session.end_statement(statement, ran.is_ok());
    ran?;
    assert!(written);
    Ok(session
        .vm
        .results
        .iter()
        .map(|row| row.iter().map(|v| show_value(v, &number(v))).collect())
        .collect())
}

fn number(v: &BTreeDataType) -> String {
    match v {
        BTreeDataType::Real(bits) => f64::from_bits(*bits).to_string(),
        _ => String::new(),
    }
}

/// Runs statements and gives the rows of the last one.
fn sql(session: &mut Session, text: &str) -> Result<Vec<Vec<String>>, String> {
    let root = parse_sql(text).map_err(|err| err.text())?;
    let mut rows = Vec::new();
    for statement in &root.statements {
        rows = execute(session, statement)?;
    }
    Ok(rows)
}

fn rows(session: &mut Session, text: &str) -> Vec<Vec<String>> {
    sql(session, text).expect("rows")
}

fn error(session: &mut Session, text: &str) -> String {
    sql(session, text).expect_err("error")
}

fn row(fields: &[&str]) -> Vec<String> {
    fields.iter().map(|f| f.to_string()).collect()
}

#[test]
fn quick_start_rows_come_back() {
    let mut s = new_session();
    rows(&mut s, "create table users (id integer, name text);");
    rows(&mut s, "insert into users (id, name) values (1, 'Ada'), (2, 'Linus');");
    assert_eq!(
        rows(&mut s, "select id, name from users;"),
        vec![row(&["Intg(1)", "Text(Ada)"]), row(&["Intg(2)", "Text(Linus)"])]
    );
    let mut t = reopened(&s);
    assert_eq!(rows(&mut t, "select name from users where id = 2"), vec![row(&["Text(Linus)"])]);
    assert_eq!(SchemaManager::table_names(&mut t.vm.btree), vec!["users".to_string()]);
}

#[test]
fn many_rows_are_scanned_updated_and_deleted() {
    let mut s = new_session();
    rows(&mut s, "create table t (a integer, b text)");
    for i in 0..100 {
        rows(&mut s, &format!("insert into t values ({i}, 'row {i}')"));
    }
    assert_eq!(rows(&mut s, "select a from t").len(), 100);
    rows(&mut s, "update t set a = a + 1000 where a >= 50");
    assert_eq!(rows(&mut s, "select a from t where a >= 1050").len(), 50);
    assert_eq!(rows(&mut s, "select b from t where a = 1099"), vec![row(&["Text(row 99)"])]);
    rows(&mut s, "delete from t where a >= 1000");
    assert_eq!(rows(&mut s, "select a from t").len(), 50);
    rows(&mut s, "delete from t");
    assert_eq!(rows(&mut s, "select a from t").len(), 0);
    rows(&mut s, "insert into t values (7, 'again')");
    assert_eq!(rows(&mut s, "select a, b from t"), vec![row(&["Intg(7)", "Text(again)"])]);
}

#[test]
fn expressions_are_computed() {
    let mut s = new_session();
    assert_eq!(rows(&mut s, "select 1 + 2"), vec![row(&["Intg(3)"])]);
    assert_eq!(rows(&mut s, "select 1 - 2"), vec![row(&["Real(-1)"])]);
    assert_eq!(rows(&mut s, "select 1.5 * 3"), vec![row(&["Real(4.5)"])]);
    assert_eq!(rows(&mut s, "select 1.5 * 2"), vec![row(&["Intg(3)"])]);
    assert_eq!(rows(&mut s, "select 7 / 2"), vec![row(&["Real(3.5)"])]);
    assert_eq!(rows(&mut s, "select 6 / 2"), vec![row(&["Real(3)"])]);
    assert_eq!(rows(&mut s, "select 1 / 0"), vec![row(&["Null"])]);
    assert_eq!(rows(&mut s, "select -2"), vec![row(&["Real(-2)"])]);
    assert_eq!(rows(&mut s, "select not 0, 2 = 2.0, 'a' < 'b', 1 < 'a'"), vec![row(&[
        "Intg(1)", "Intg(1)", "Intg(1)", "Intg(1)",
    ])]);
    assert_eq!(rows(&mut s, "select 1 and 0, 0 or 'x', 2 != 3, 2 >= 3"), vec![row(&[
        "Intg(0)", "Intg(1)", "Intg(1)", "Intg(0)",
    ])]);
    assert_eq!(
        error(&mut s, "select 'a' + 1"),
        "vm error: operation failed at pc=2: Add r0 r1 -> r2"
    );
}

#[test]
fn joins_pair_rows() {
    let mut s = new_session();
    rows(&mut s, "create table users (id integer, name text)");
    rows(&mut s, "create table orders (id integer, user_id integer)");
    rows(&mut s, "insert into users values (1, 'Ada'), (2, 'Linus')");
    rows(&mut s, "insert into orders values (10, 2), (11, 1), (12, 2)");
    let mut pairs = rows(
        &mut s,
        "select u.name, o.id from users u join orders o on u.id = o.user_id",
    );
    pairs.sort();
    assert_eq!(pairs, vec![
        row(&["Text(Ada)", "Intg(11)"]),
        row(&["Text(Linus)", "Intg(10)"]),
        row(&["Text(Linus)", "Intg(12)"]),
    ]);
    assert_eq!(rows(&mut s, "select * from users cross join orders").len(), 6);
    assert_eq!(rows(&mut s, "select * from users join orders using (id)").len(), 0);
}

#[test]
fn limits_cut_rows_off() {
    let mut s = new_session();
    rows(&mut s, "create table t (a integer)");
    rows(&mut s, "insert into t values (1), (2), (3)");
    assert_eq!(rows(&mut s, "select a from t limit 2"), vec![row(&["Intg(1)"]), row(&["Intg(2)"])]);
    assert_eq!(rows(&mut s, "select a from t limit 0").len(), 0);
    assert_eq!(
        error(&mut s, "select a from t limit 1 + 1"),
        "codegen error: only integer literal LIMIT is supported by VM codegen"
    );
    assert_eq!(
        error(&mut s, "select a from t order by a"),
        "codegen error: Sort physical plan cannot be compiled before temp btree/sort VM ops exist"
    );
}

#[test]
fn a_transaction_is_undone_as_a_whole() {
    let mut s = new_session();
    rows(&mut s, "create table t (a integer)");
    rows(&mut s, "insert into t values (1)");
    rows(&mut s, "begin");
    assert!(s.explicit_transaction);
    rows(&mut s, "insert into t values (2)");
    rows(&mut s, "delete from t where a = 1");
    assert_eq!(rows(&mut s, "select a from t"), vec![row(&["Intg(2)"])]);
    rows(&mut s, "rollback");
    assert!(!s.explicit_transaction);
    assert_eq!(rows(&mut s, "select a from t"), vec![row(&["Intg(1)"])]);
    rows(&mut s, "begin; insert into t values (3); commit;");
    assert_eq!(rows(&mut reopened(&s), "select a from t").len(), 2);
}

#[test]
fn a_failed_statement_leaves_no_rows() {
    let mut s = new_session();
    rows(&mut s, "create table t (a integer)");
    let err = error(&mut s, "insert into t values (1), ('a' + 1)");
    assert!(err.starts_with("vm error: operation failed at pc="));
    assert_eq!(rows(&mut s, "select a from t").len(), 0);
    let err = error(&mut s, "create table t (b integer)");
    assert_eq!(err, "vm error: operation failed at pc=0: CreateTable t (b integer)");
    rows(&mut s, "drop table t");
    assert_eq!(
        error(&mut s, "select a from t"),
        "codegen error: unknown table 't'"
    );
    rows(&mut s, "create table t (b integer)");
    assert_eq!(rows(&mut s, "select b from t").len(), 0);
}

#[test]
fn tables_do_not_disturb_each_other() {
    let mut s = new_session();
    rows(&mut s, "create table a (x integer)");
    rows(&mut s, "create table b (x integer)");
    for i in 0..30 {
        rows(&mut s, &format!("insert into a values ({i})"));
        rows(&mut s, &format!("insert into b values ({})", 100 + i));
    }
    rows(&mut s, "delete from a where x < 15");
    assert_eq!(rows(&mut s, "select x from a").len(), 15);
    assert_eq!(rows(&mut s, "select x from b").len(), 30);
    rows(&mut s, "drop table a");
    assert_eq!(rows(&mut s, "select x from b").len(), 30);
    assert_eq!(SchemaManager::table_names(&mut s.vm.btree), vec!["b".to_string()]);
    assert!(!SchemaManager::table_exists(&mut s.vm.btree, "a"));
}

#[test]
fn dropped_pages_are_used_again() {
    let mut s = new_session();
    let fill = |s: &mut Session| {
        rows(s, "create table t (x integer)");
        for i in 0..60 {
            rows(s, &format!("insert into t values ({i})"));
        }
    };
    fill(&mut s);
    let pages = s.vm.btree.pager.total_pages;
    rows(&mut s, "drop table t");
    assert!(s.vm.btree.get_freelist_len() > 0);
    let mut s = reopened(&s);
    fill(&mut s);
    assert_eq!(s.vm.btree.pager.total_pages, pages);
    assert_eq!(rows(&mut s, "select x from t").len(), 60);
}

#[test]
fn mistakes_in_statements_are_told() {
    let mut s = new_session();
    rows(&mut s, "create table users (id integer, name text)");
    rows(&mut s, "create table orders (id integer, user_id integer)");
    for (text, message) in [
        ("select x from users", "unknown column 'x'"),
        ("select id from users, orders", ""),
        ("select id from users cross join orders", "ambiguous column 'id'"),
        ("select o.name from users u cross join orders o", "unknown column 'name'"),
        ("select * from users join orders using (zip)", "unknown USING column 'zip'"),
        (
            "select * from users u cross join users v join orders using (id)",
            "ambiguous USING column 'id'",
        ),
        (
            "select lower(name) from users",
            "function expressions are not supported by VM codegen yet",
        ),
        ("insert into users (id, zip) values (1, 2)", "unknown column 'zip'"),
        ("insert into users (id, ID) values (1, 2)", "duplicate INSERT column 'ID'"),
        ("insert into users (id) values (1, 2)", "INSERT has 1 columns but 2 values"),
        (
            "insert into users values (1)",
            "INSERT has 1 values but table 'users' has 2 columns",
        ),
        ("insert into users values (1, name)", "column 'name' is not available in this expression"),
        (
            "insert into users values (1, lower('A'))",
            "function 'lower' is not supported by VM codegen yet",
        ),
        ("insert into nobody values (1)", "unknown table 'nobody'"),
        ("update users set zip = 1", "unknown column 'zip'"),
        ("update users set id = 1, id = 2", "duplicate assignment to column 'id'"),
        ("update users set id = orders.id", "unknown table qualifier 'orders'"),
        ("update users set id = zip", "unknown column 'zip'"),
        ("delete from nobody", "unknown table 'nobody'"),
        (
            "select * from users cross join orders on users.id = orders.id",
            "CROSS JOIN cannot have ON or USING constraint",
        ),
    ] {
        if message.is_empty() {
            continue;
        }
        assert_eq!(error(&mut s, text), format!("codegen error: {message}"), "{text}");
        rows(&mut s, "rollback");
    }
}

#[test]
fn qualified_and_aliased_columns_are_found() {
    let mut s = new_session();
    rows(&mut s, "create table users (id integer, name text)");
    rows(&mut s, "insert into users values (1, 'Ada')");
    assert_eq!(
        rows(&mut s, "select U.ID, u.Name from users u where USERS.id = 1"),
        vec![row(&["Intg(1)", "Text(Ada)"])]
    );
    rows(&mut s, "update users set name = 'Grace' where users.id = 1");
    assert_eq!(rows(&mut s, "select * from users"), vec![row(&["Intg(1)", "Text(Grace)"])]);
}

#[test]
fn missing_values_hold_nothing() {
    let mut s = new_session();
    rows(&mut s, "create table t (a integer, b text)");
    rows(&mut s, "insert into t (b) values ('x')");
    assert_eq!(rows(&mut s, "select a, b from t"), vec![row(&["Null", "Text(x)"])]);
    rows(&mut s, "insert into t (a) values (2.5)");
    assert_eq!(rows(&mut s, "select a from t where a > 2"), vec![row(&["Real(2.5)"])]);
}

#[test]
fn completeness_looks_past_blanks() {
    assert!(sql_is_complete("select 1;"));
    assert!(sql_is_complete("select 1; \t\n\u{3000}"));
    assert!(!sql_is_complete("select 1"));
    assert!(!sql_is_complete("select ';' x"));
    assert!(!sql_is_complete(" \n"));
    assert!(!sql_is_complete(""));
}

#[test]
fn lines_are_gathered_until_a_statement_ends() {
    let mut buffer = String::new();
    assert_eq!(take_line(&mut buffer, "select 1\n"), Input::More);
    assert_eq!(take_line(&mut buffer, ".tables\n"), Input::More);
    assert_eq!(
        take_line(&mut buffer, "+ 2;\n"),
        Input::Sql("select 1\n.tables\n+ 2;\n".to_string())
    );
    assert_eq!(buffer, "");
    assert_eq!(take_line(&mut buffer, "  .tables\n"), Input::Command(Meta::Tables));
}

#[test]
fn commands_are_told_apart() {
    assert_eq!(parse_meta(".exit"), Meta::Exit);
    assert_eq!(parse_meta(".quit now"), Meta::Exit);
    assert_eq!(parse_meta(" .help "), Meta::Help);
    assert_eq!(parse_meta(".open"), Meta::Open(None));
    assert_eq!(parse_meta(".open  a.db b"), Meta::Open(Some("a.db".to_string())));
    assert_eq!(parse_meta(".schema"), Meta::Schema(None));
    assert_eq!(parse_meta(".schema users"), Meta::Schema(Some("users".to_string())));
    assert_eq!(parse_meta(".dbinfo"), Meta::Dbinfo);
    assert_eq!(parse_meta(".what is"), Meta::Unknown(".what".to_string()));
}

#[test]
fn tables_are_shown_as_statements() {
    let column = |name: &str, nullable: bool, is_primary_key: bool| ColumnDef {
        name: name.to_string(),
        col_type: "TEXT".to_string(),
        nullable,
        is_primary_key,
    };
    let columns = vec![column("a", false, true), column("b", false, false), column("c", true, false)];
    assert_eq!(
        create_table_text("t", &columns),
        "CREATE TABLE t (a TEXT PRIMARY KEY, b TEXT NOT NULL, c TEXT);"
    );
    assert_eq!(create_table_text("t", &Vec::new()), "CREATE TABLE t ();");
}

#[test]
fn values_are_shown() {
    assert_eq!(show_value(&BTreeDataType::Null, ""), "Null");
    assert_eq!(show_value(&BTreeDataType::Integer(42), ""), "Intg(42)");
    assert_eq!(show_value(&BTreeDataType::Real(1.5f64.to_bits()), "1.5"), "Real(1.5)");
    assert_eq!(show_value(&BTreeDataType::Text("a".to_string()), ""), "Text(a)");
    assert_eq!(show_value(&BTreeDataType::Blob(vec![0, 10, 255]), ""), "Blob([0,A,FF,");
}
