use minisqlr::engine::btree::BTree;
use minisqlr::engine::pages::Pager;
use minisqlr::engine::value::BTreeDataType;
use minisqlr::sql::lexer::{lex_sqlexpr, TokenType};
use minisqlr::sql::operations::{
    Add, Close, Column, Goto, Halt, IfNot, IfResultsGe, Integer, MakeRecord, Negate, NewRowid, Null,
    OpenWrite, Operation, Real, ResultRow, Rowid, Text,
};
use minisqlr::sql::parser::parse_sql;
use minisqlr::sql::reals::{RealAnswers, RealQuestion};
use minisqlr::sql::vm::{Run, Step, VMInstance};

fn machine() -> VMInstance {
    let db = Pager::create_or_opendb(None);
    let mut btree = BTree::new(Pager::new(db, None, "machine".to_string()), 2);
    assert!(btree.create_db());
    VMInstance::new(btree)
}

fn done(vm: &mut VMInstance, op: Operation) {
    assert_eq!(vm.execute(&op, &RealAnswers::new()), Step::Done, "{}", op.explain());
}

fn fails(vm: &mut VMInstance, op: Operation) {
    assert_eq!(vm.execute(&op, &RealAnswers::new()), Step::Failed, "{}", op.explain());
}

#[test]
fn registers_are_written_on_demand() {
    let mut vm = machine();
    done(&mut vm, Operation::Integer(Integer { dest: 2, value: 7 }));
    assert_eq!(vm.registers, vec![
        BTreeDataType::Null,
        BTreeDataType::Null,
        BTreeDataType::Integer(7),
    ]);
    fails(&mut vm, Operation::Integer(Integer { dest: 0, value: -1 }));
    done(&mut vm, Operation::Text(Text { dest: 0, value: vec![b'a', 0xff] }));
    assert_eq!(vm.registers[0], BTreeDataType::Text("a\u{fffd}".to_string()));
    done(&mut vm, Operation::Null(Null { dest: 0 }));
    assert_eq!(vm.registers[0], BTreeDataType::Null);
}

#[test]
fn operations_on_what_is_not_there_fail() {
    let mut vm = machine();
    fails(&mut vm, Operation::Close(Close { cursor_id: 0 }));
    fails(&mut vm, Operation::Column(Column { cursor_id: 0, col_idx: 0, dest: 0 }));
    fails(&mut vm, Operation::Rowid(Rowid { cursor_id: 3, dest: 0 }));
    fails(&mut vm, Operation::NewRowid(NewRowid { cursor_id: 0, dest: 0 }));
    fails(&mut vm, Operation::MakeRecord(MakeRecord { dest: 0, fields: vec![0] }));
    fails(&mut vm, Operation::ResultRow(ResultRow { fields: vec![1] }));
    fails(&mut vm, Operation::IfNot(IfNot { cond_reg: 0, target: 5 }));
    fails(&mut vm, Operation::Add(Add { lhs: 0, rhs: 1, dest: 2 }));
    done(&mut vm, Operation::OpenWrite(OpenWrite { cursor_id: 1, root_pgno: 1 }));
    fails(&mut vm, Operation::Column(Column { cursor_id: 1, col_idx: 0, dest: 0 }));
    done(&mut vm, Operation::NewRowid(NewRowid { cursor_id: 1, dest: 0 }));
    assert_eq!(vm.registers[0], BTreeDataType::Integer(1));
    done(&mut vm, Operation::Close(Close { cursor_id: 1 }));
    fails(&mut vm, Operation::Close(Close { cursor_id: 1 }));
}

#[test]
fn reals_are_asked_for() {
    let mut vm = machine();
    let mut reals = RealAnswers::new();
    let op = Operation::Real(Real { dest: 0, value: "2.5".to_string() });
    let question = RealQuestion::OfText("2.5".to_string());
    match vm.execute(&op, &reals) {
        Step::Needs(q) => assert_eq!(q, question),
        other => panic!("unexpected step {other:?}"),
    }
    assert!(vm.registers.is_empty());
    reals.learn(question, Some(2.5f64.to_bits()));
    assert_eq!(vm.execute(&op, &reals), Step::Done);
    let negate = Operation::Negate(Negate { src: 0, dest: 0 });
    assert_eq!(vm.execute(&negate, &reals), Step::Done);
    assert_eq!(vm.registers[0], BTreeDataType::Real((-2.5f64).to_bits()));
}

#[test]
fn programs_jump_halt_and_fall_off_their_end() {
    let mut vm = machine();
    let reals = RealAnswers::new();
    let ops = vec![
        Operation::Integer(Integer { dest: 0, value: 1 }),
        Operation::ResultRow(ResultRow { fields: vec![0] }),
        Operation::IfResultsGe(IfResultsGe { limit: 3, target: 4 }),
        Operation::Goto(Goto { target: 1 }),
    ];
    assert_eq!(vm.run(&ops, &reals, 100), Run::Finished);
    assert_eq!(vm.results.len(), 3);
    vm.reset();
    assert_eq!(vm.run(&ops, &reals, 4), Run::Paused);
    assert_eq!(vm.results.len(), 1);
    assert_eq!(vm.resume(&ops, &reals, 100), Run::Finished);
    assert_eq!(vm.results.len(), 3);
    vm.reset();
    let ops = vec![Operation::Halt(Halt), Operation::Goto(Goto { target: 0 })];
    assert_eq!(vm.run(&ops, &reals, 10), Run::Finished);
    assert!(vm.flag_halt);
    let ops = vec![Operation::Close(Close { cursor_id: 9 })];
    match vm.run(&ops, &reals, 10) {
        Run::Failed(err) => {
            assert_eq!(err.message, "operation failed at pc=0: Close cursor=9");
            assert_eq!(err.text(), "vm error: operation failed at pc=0: Close cursor=9");
        }
        other => panic!("unexpected end {other:?}"),
    }
}

#[test]
fn tokens_are_told_apart() {
    let tokens = lex_sqlexpr(b"a_1 >= 1.5 'it' <> (");
    let shown: Vec<String> = tokens
        .iter()
        .map(|t| match t {
            TokenType::Ident(b) => format!("i{}", String::from_utf8_lossy(b)),
            TokenType::Const(b) => format!("c{}", String::from_utf8_lossy(b)),
            TokenType::Oper(b) => format!("o{}", String::from_utf8_lossy(b)),
        })
        .collect();
    assert_eq!(shown[0], "ia_1");
    assert_eq!(shown[1], "o>=");
    assert_eq!(shown[2], "c1.5");
    assert_eq!(shown.last().map(String::as_str), Some("o("));
}

#[test]
fn mistakes_in_syntax_are_told() {
    for text in ["select", "create users", "insert into t values 1", "delete t", "select 1 +"] {
        let err = parse_sql(text).expect_err("parse error");
        assert!(err.text().starts_with("parse error at token "), "{}", err.text());
    }
}
