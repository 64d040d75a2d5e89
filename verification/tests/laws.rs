use minisqlr::engine::btree::BTree;
use minisqlr::engine::cursor::BTreeCursor;
use minisqlr::engine::journal::FileOp;
use minisqlr::engine::node::PAGE_SIZE;
use minisqlr::engine::pages::{PageInfo, Pager};
use minisqlr::engine::record::BTreeValueType;
use minisqlr::engine::value::BTreeDataType;
use minisqlr::sql::lexer::lex_sqlexpr;
use minisqlr::sql::operations::{CommitTransaction, Operation};
use minisqlr::sql::parser::parse_sql;
use minisqlr::sql::reals::RealAnswers;
use minisqlr::sql::schema::{ColumnDef, SchemaManager, SchemaType, TableStructure};
use minisqlr::sql::session::Session;
use minisqlr::sql::vm::{Step, VMInstance};

fn new_btree() -> BTree {
    let db = Pager::create_or_opendb(None);
    let mut btree = BTree::new(Pager::new(db, None, "laws".to_string()), 2);
    assert!(btree.create_db());
    btree
}

/// Performs file operations on the contents of the two files.
fn perform(db: &mut Vec<u8>, journal: &mut Option<Vec<u8>>, ops: &[FileOp]) {
    let write = |file: &mut Vec<u8>, offset: usize, bytes: &[u8]| {
        if file.len() < offset + bytes.len() {
            file.resize(offset + bytes.len(), 0);
        }
        file[offset..offset + bytes.len()].copy_from_slice(bytes);
    };
    for op in ops {
        match op {
            FileOp::WriteDb { offset, bytes } => write(db, *offset, bytes),
            FileOp::SetDbLen { len } => db.resize(*len, 0),
            FileOp::CreateJournal { bytes } => *journal = Some(bytes.clone()),
            FileOp::WriteJournal { offset, bytes } => {
                write(journal.as_mut().expect("journal"), *offset, bytes)
            }
            FileOp::SetJournalLen { len } => journal.as_mut().expect("journal").resize(*len, 0),
            FileOp::DeleteJournal => *journal = None,
            _ => {}
        }
    }
}

/// The contents of the two files of a database.
#[derive(Clone)]
struct Files {
    db: Vec<u8>,
    journal: Option<Vec<u8>>,
}

impl Files {
    fn new() -> Files {
        Files { db: Pager::create_or_opendb(None), journal: None }
    }

    fn pager(&self) -> Pager {
        Pager::new(self.db.clone(), self.journal.clone(), "laws".to_string())
    }

    /// The files once operations are performed on them.
    fn after(&self, ops: &[FileOp]) -> Files {
        let mut files = self.clone();
        perform(&mut files.db, &mut files.journal, ops);
        files
    }

    fn open(&self) -> BTree {
        let mut btree = BTree::new(self.pager(), 2);
        assert!(btree.begin_transaction_read());
        btree
    }
}

/// The trees in the files, once all is performed that `btree` has asked for.
fn reopened(files: &mut Files, btree: &mut BTree) -> BTree {
    *files = files.after(&btree.pager.journal.take_ops());
    files.open()
}

fn key(n: u64) -> BTreeDataType {
    BTreeDataType::Integer(n)
}

fn value(n: u64) -> BTreeValueType {
    BTreeValueType::new_single(BTreeDataType::Integer(n))
}

fn read(btree: &mut BTree, root: u32, n: u64) -> Option<u64> {
    let found = BTreeCursor::new(0, root).get_val(btree, &key(n))?;
    match found.v[0] {
        BTreeDataType::Integer(v) => Some(v),
        _ => panic!("expected an integer"),
    }
}

#[test]
fn what_is_written_is_read_back() {
    let mut b = new_btree();
    let mut c = BTreeCursor::new_root();
    for n in 0..50 {
        assert!(c.insert(&mut b, &key(n * 3 % 50), &value(n)));
    }
    assert!(!c.insert(&mut b, &key(7), &value(1)));
    assert_eq!(read(&mut b, 1, 3 * 7), Some(7));
    assert!(c.remove(&mut b, &key(21)));
    assert!(!c.remove(&mut b, &key(21)));
    assert_eq!(read(&mut b, 1, 21), None);
    assert_eq!(read(&mut b, 1, 24), Some(8));
    assert!(c.insert(&mut b, &key(21), &value(99)));
    assert_eq!(read(&mut b, 1, 21), Some(99));
}

#[test]
fn a_cursor_walks_all_entries_in_order() {
    let mut b = new_btree();
    let mut c = BTreeCursor::new_root();
    assert!(!c.moveto_first_entry(&mut b));
    for n in [5, 1, 9, 3, 7, 2, 8] {
        assert!(c.insert(&mut b, &key(n), &value(n)));
    }
    let mut seen = Vec::new();
    c.moveto_root();
    let mut more = c.moveto_first_entry(&mut b);
    while more {
        let (k, _) = c.current_entry(&mut b).expect("entry");
        seen.push(k);
        more = c.moveto_next_entry(&mut b);
    }
    assert_eq!(seen, [1, 2, 3, 5, 7, 8, 9].map(key).to_vec());
    assert!(c.moveto_key_entry(&mut b, &key(5)));
    assert!(!c.moveto_key_entry(&mut b, &key(4)));
    c.moveto_root();
    assert_eq!(c.next_integer_key(&mut b), Some(10));
}

#[test]
fn moves_start_where_the_cursor_is() {
    let mut b = new_btree();
    let mut c = BTreeCursor::new_root();
    // Leaves with 0 and 1, with 2 and 3, and with 4, 5 and 6.
    for n in 0..7 {
        assert!(c.insert(&mut b, &key(n), &value(n)));
    }
    assert!(c.moveto_key_entry(&mut b, &key(3)));
    assert!(c.moveto_first_entry(&mut b));
    assert_eq!(c.current_entry(&mut b).expect("entry").0, key(2));
    assert_eq!(c.next_integer_key(&mut b), Some(4));
    assert!(c.moveto_leftmost(&mut b));
    assert_eq!(c.next(&mut b).expect("entry").0, key(2));
    assert!(c.moveto_rightmost(&mut b));
    assert_eq!(c.prev(&mut b).expect("entry").0, key(3));
    c.moveto_root();
    assert!(c.moveto_first_entry(&mut b));
    assert_eq!(c.current_entry(&mut b).expect("entry").0, key(0));
}

#[test]
fn a_removed_entry_is_followed_by_the_next_one() {
    let mut b = new_btree();
    let mut c = BTreeCursor::new_root();
    for n in 0..40 {
        assert!(c.insert(&mut b, &key(n), &value(n)));
    }
    c.moveto_root();
    let mut more = c.moveto_first_entry(&mut b);
    let mut seen = 0;
    while more {
        let (k, _) = c.current_entry(&mut b).expect("entry");
        assert!(c.remove(&mut b, &k));
        seen += 1;
        more = c.moveto_next_entry(&mut b);
    }
    assert_eq!(seen, 40);
    c.moveto_root();
    assert!(!c.moveto_first_entry(&mut b));
}

#[test]
fn trees_leave_each_other_alone() {
    let mut b = new_btree();
    let p = b.new_tree().expect("tree");
    let q = b.new_tree().expect("tree");
    assert!(p != q);
    for n in 0..30 {
        assert!(BTreeCursor::new(0, p).insert(&mut b, &key(n), &value(n)));
        assert!(BTreeCursor::new(0, q).insert(&mut b, &key(n), &value(n + 100)));
    }
    for n in 0..30 {
        assert!(BTreeCursor::new(0, p).remove(&mut b, &key(n)));
        assert_eq!(read(&mut b, p, n), None);
        assert_eq!(read(&mut b, q, n), Some(n + 100));
    }
    assert!(b.free_tree(p));
    assert_eq!(read(&mut b, q, 29), Some(129));
    let pages = b.tree_pages(q).expect("pages");
    assert_eq!(pages[0], (0, q));
    assert!(pages.iter().all(|(depth, pgno)| (*depth == 0) == (*pgno == q)));
}

#[test]
fn a_commit_survives_and_a_crash_leaves_no_trace() {
    let mut b = new_btree();
    for n in 0..20 {
        assert!(BTreeCursor::new_root().insert(&mut b, &key(n), &value(n)));
    }
    assert!(b.end_transaction_write());
    let mut files = Files::new();
    let mut c = reopened(&mut files, &mut b);
    assert_eq!(read(&mut c, 1, 19), Some(19));

    c.begin_transaction_write();
    for n in 20..60 {
        assert!(BTreeCursor::new_root().insert(&mut c, &key(n), &value(n)));
    }
    assert!(BTreeCursor::new_root().remove(&mut c, &key(0)));
    let mut d = reopened(&mut files, &mut c);
    assert_eq!(read(&mut d, 1, 0), Some(0));
    assert_eq!(read(&mut d, 1, 20), None);

    c.rollback();
    assert_eq!(read(&mut c, 1, 0), Some(0));
    assert_eq!(read(&mut c, 1, 20), None);
}

#[test]
fn nothing_is_changed_outside_of_a_transaction() {
    let mut b = new_btree();
    assert!(b.end_transaction_write());
    assert!(!BTreeCursor::new_root().insert(&mut b, &key(1), &value(1)));
    assert_eq!(b.new_tree(), None);
}

#[test]
fn bytes_that_are_no_text_are_replaced() {
    let value = BTreeValueType::from_vec(vec![BTreeDataType::Text("ab".to_string())]);
    let mut bytes = value.get_bytes();
    let last = bytes.len() - 1;
    bytes[last] = 0xff;
    let decoded = BTreeValueType::new(&bytes);
    assert_eq!(decoded.v[0], BTreeDataType::Text("a\u{fffd}".to_string()));
    assert!(BTreeValueType::read(&[9, 9, 9]).is_none());
}

#[test]
fn values_of_all_types_round_trip() {
    let fields = || {
        vec![
            BTreeDataType::Null,
            BTreeDataType::Integer(u64::MAX),
            BTreeDataType::Real((-2.5f64).to_bits()),
            BTreeDataType::Text("gr\u{fc}n".to_string()),
            BTreeDataType::Blob(vec![0, 1, 255]),
        ]
    };
    let bytes = BTreeValueType::from_vec(fields()).get_bytes();
    assert_eq!(BTreeValueType::new(&bytes).v, fields());
}

#[test]
fn structures_are_written_as_json() {
    let column = |name: &str| ColumnDef {
        name: name.to_string(),
        col_type: "TEXT".to_string(),
        nullable: true,
        is_primary_key: false,
    };
    let structure = TableStructure { columns: vec![column("a"), column("q\"\\\u{1}")] };
    let json = structure.to_json().expect("json");
    assert_eq!(
        json,
        "{\"columns\":[{\"name\":\"a\",\"col_type\":\"TEXT\",\"nullable\":true,\
         \"is_primary_key\":false},{\"name\":\"q\\\"\\\\\\u0001\",\"col_type\":\"TEXT\",\
         \"nullable\":true,\"is_primary_key\":false}]}"
    );
    let value: serde_json::Value = serde_json::from_str(&json).expect("parse");
    assert_eq!(value["columns"][1]["name"], "q\"\\\u{1}");
}

#[test]
fn schema_rows_come_back() {
    let mut b = new_btree();
    let structure = TableStructure { columns: Vec::new() };
    assert!(SchemaManager::create_table(&mut b, "t", 7, &structure));
    assert!(!SchemaManager::create_table(&mut b, "t", 8, &structure));
    let info = SchemaManager::get_table(&mut b, "t").expect("info");
    assert_eq!(info.schema_type, SchemaType::Table);
    assert_eq!(info.name, "t");
    assert_eq!(info.tbl_name, "t");
    assert_eq!(info.root_pgno, 7);
    assert_eq!(info.structure_json, "{\"columns\":[]}");
    assert!(SchemaManager::get_table(&mut b, "T").is_none());
    assert!(SchemaManager::table_exists(&mut b, "t"));
    assert!(SchemaManager::drop_table(&mut b, "t"));
    assert!(SchemaManager::list_schema(&mut b).is_empty());
    assert_eq!(SchemaType::from_str("index"), Some(SchemaType::Index));
    assert_eq!(SchemaType::from_str("Index"), None);
    assert_eq!(SchemaType::Trigger.as_str(), "trigger");
}

#[test]
fn a_cursor_goes_back_and_forth() {
    let mut b = new_btree();
    let mut c = BTreeCursor::new_root();
    for n in 0..12 {
        assert!(c.insert(&mut b, &key(n), &value(n)));
    }
    c.moveto_root();
    assert!(c.moveto_rightmost(&mut b));
    for n in (0..12).rev() {
        let (k, _) = c.prev(&mut b).expect("entry before");
        assert_eq!(k, key(n));
    }
    assert!(c.prev(&mut b).is_none());
    assert!(c.moveto_leftmost(&mut b));
    for n in 0..12 {
        let (k, _) = c.next(&mut b).expect("entry behind");
        assert_eq!(k, key(n));
    }
    assert!(c.next(&mut b).is_none());
}

fn text(c: char, n: usize) -> BTreeDataType {
    BTreeDataType::Text(c.to_string().repeat(n))
}

#[test]
fn long_keys_are_kept_where_pages_hold_them() {
    let mut b = new_btree();
    let mut c = BTreeCursor::new_root();
    assert!(c.insert(&mut b, &text('b', 1500), &value(1)));
    assert!(c.insert(&mut b, &text('a', 1500), &value(2)));
    // A third one would not leave room on the page, and nothing changes.
    assert!(!c.insert(&mut b, &text('c', 1500), &value(3)));
    assert!(!c.insert(&mut b, &text('d', 5000), &value(4)));
    assert!(c.get_val(&mut b, &text('a', 1500)).is_some());
    assert!(c.get_val(&mut b, &text('c', 1500)).is_none());
    assert!(c.remove(&mut b, &text('b', 1500)));
    assert!(c.insert(&mut b, &text('c', 1500), &value(3)));
    assert!(c.get_val(&mut b, &text('b', 1500)).is_none());
    assert!(c.get_val(&mut b, &text('c', 1500)).is_some());
}

#[test]
fn wide_rows_are_added_and_removed() {
    let mut b = new_btree();
    let mut c = BTreeCursor::new_root();
    let wide = BTreeValueType::new_single(text('x', 1300));
    for n in 0..20 {
        assert!(c.insert(&mut b, &key(n), &wide));
    }
    for n in 0..20 {
        assert!(c.get_val(&mut b, &key(n)).is_some());
        assert!(c.remove(&mut b, &key(n)));
        assert!(c.get_val(&mut b, &key(n)).is_none());
    }
}

#[test]
fn the_two_zeros_are_one_key() {
    let mut b = new_btree();
    let mut c = BTreeCursor::new_root();
    let plus = BTreeDataType::Real(0);
    let minus = BTreeDataType::Real(1 << 63);
    assert!(c.insert(&mut b, &minus, &value(5)));
    assert!(!c.insert(&mut b, &plus, &value(6)));
    assert!(c.get_val(&mut b, &plus).is_some());
    assert!(c.get_val(&mut b, &minus).is_some());
    assert!(c.remove(&mut b, &minus));
    assert!(c.get_val(&mut b, &plus).is_none());
}

#[test]
fn a_damaged_journal_is_deleted() {
    let mut b = new_btree();
    assert!(BTreeCursor::new_root().insert(&mut b, &key(1), &value(10)));
    assert!(b.end_transaction_write());
    let db = b.pager.journal.db.clone();
    let mut journal = b.pager.journal.journal.clone().expect("journal");
    journal[16] = 1;
    journal.push(7);
    let mut pager = Pager::new(db.clone(), Some(journal), "laws".to_string());
    pager.check_and_tryrollback();
    assert!(pager.journal.journal.is_none());
    assert_eq!(pager.journal.dblock, 0);
    assert_eq!(pager.journal.db, db);
    let ops = pager.journal.take_ops();
    assert!(ops.iter().any(|op| matches!(op, FileOp::DeleteJournal)));
    let mut again = BTree::new(pager, 2);
    assert!(again.begin_transaction_read());
    assert_eq!(read(&mut again, 1, 1), Some(10));
}

#[test]
fn the_file_has_as_many_pages_as_the_database() {
    let mut b = new_btree();
    let mut c = BTreeCursor::new_root();
    for n in 0..30 {
        assert!(c.insert(&mut b, &key(n), &value(n)));
    }
    let pages = b.pager.total_pages as usize;
    assert!(b.end_transaction_write());
    assert_eq!(b.pager.journal.db.len(), pages * PAGE_SIZE);
}

#[test]
fn pages_are_taken_where_pages_are_halved() {
    let mut b = new_btree();
    let mut c = BTreeCursor::new_root();
    for n in 0..3 {
        assert!(c.insert(&mut b, &key(n), &value(n)));
    }
    assert_eq!(b.pager.total_pages, 2);
    assert!(c.insert(&mut b, &key(3), &value(3)));
    assert_eq!(b.pager.total_pages, 4);
}

#[test]
fn pages_of_a_freed_tree_are_kept_in_order() {
    let mut b = new_btree();
    let p = b.new_tree().expect("tree");
    for n in 0..12 {
        assert!(BTreeCursor::new(0, p).insert(&mut b, &key(n), &value(n)));
    }
    let mut pages: Vec<u32> = b.tree_pages(p).expect("pages").iter().map(|x| x.1).collect();
    pages.sort();
    assert!(b.new_free_page.is_empty());
    assert!(b.free_tree(p));
    assert_eq!(b.new_free_page, pages);
}

#[test]
fn a_page_gets_another_number_and_nothing_else() {
    let mut page = PageInfo::new(3, 1, vec![9; PAGE_SIZE]);
    assert_eq!(page.fetchkey_rekey(8), 3);
    assert_eq!(page.pgno(), 8);
    assert_eq!(page.flags(), 1);
    assert_eq!(page.data_read(), vec![9; PAGE_SIZE].as_slice());
}

#[test]
fn names_are_escaped_in_json() {
    let structure = TableStructure {
        columns: vec![ColumnDef {
            name: "a\"b\\c\n\t\u{8}\u{c}\r\u{1}\u{1f}\u{7f}é".to_string(),
            col_type: "int".to_string(),
            nullable: true,
            is_primary_key: false,
        }],
    };
    let json = structure.to_json().expect("json");
    assert!(json.starts_with("{\"columns\":[{\"name\":\"a\\\"b\\\\c\\n\\t\\b\\f\\r\\u0001\\u001f\u{7f}é\","));
}

#[test]
fn names_of_tables_occur_once() {
    let mut b = new_btree();
    let structure = TableStructure { columns: vec![] };
    let p = b.new_tree().expect("tree");
    assert!(SchemaManager::create_table(&mut b, "t", p, &structure));
    assert!(!SchemaManager::create_table(&mut b, "t", p, &structure));
    let q = b.new_tree().expect("tree");
    assert!(SchemaManager::create_table(&mut b, "s", q, &structure));
    assert_eq!(SchemaManager::table_names(&mut b), vec!["s".to_string(), "t".to_string()]);
    let info = SchemaManager::get_table(&mut b, "t").expect("table");
    assert_eq!(info.root_pgno, p);
    assert_eq!(info.structure_json, "{\"columns\":[]}");
}

#[test]
fn a_blank_parts_tokens() {
    let tokens = |s: &str| format!("{:?}", lex_sqlexpr(s.as_bytes()));
    let joined = |a: &str, b: &str| {
        let mut all = lex_sqlexpr(a.as_bytes());
        all.extend(lex_sqlexpr(b.as_bytes()));
        format!("{:?}", all)
    };
    for (a, b) in [("a", "b"), ("<", "="), ("1.", "5"), ("'x''y'", "'z'"), ("", "a1")] {
        let whole = format!("{} {}", a, b);
        assert_eq!(tokens(&whole), joined(a, b));
    }
    // An open quote takes in the blank.
    assert!(tokens("'a b") != joined("'a", "b"));
}

#[test]
fn semicolons_may_be_repeated() {
    let parsed = |s: &str| format!("{:?}", parse_sql(s).expect("statements"));
    let plain = parsed("begin; commit");
    assert_eq!(parsed(";;begin;;;commit;;"), plain);
    assert_eq!(parsed("begin;commit;"), plain);
}

#[test]
fn zeros_around_a_fraction_do_not_count() {
    let parsed = |s: &str| format!("{:?}", parse_sql(s).expect("statements"));
    assert_eq!(parsed("select 1.0 from t"), parsed("select 1.00 from t"));
    assert_eq!(parsed("select 2.50 from t"), parsed("select 2.5 from t"));
    assert!(parsed("select 10.0 from t").contains("Real(\"10\")"));
    assert!(parsed("select 0.0 from t").contains("Real(\"0\")"));
    assert!(parsed("select 00.5 from t").contains("Real(\"0.5\")"));
    assert!(parsed("select 007.250 from t").contains("Real(\"7.25\")"));
    assert!(parsed("select '.5' from t").contains("Real(\"0.5\")"));
    assert!(parsed("select 100. from t").contains("Real(\"100\")"));
}

#[test]
fn a_page_that_was_merged_away_is_empty_and_comes_next() {
    let mut b = new_btree();
    let mut c = BTreeCursor::new_root();
    for n in 1..7 {
        assert!(c.insert(&mut b, &key(n), &value(n)));
    }
    let root = b.getnode(1).expect("root");
    let gone = root.children_pgno[1];
    let kept = root.children_pgno[0];
    let last = root.children_pgno[2];
    assert!(c.remove(&mut b, &key(2)));
    let keys = |n: u32, b: &mut BTree| -> Vec<BTreeDataType> {
        b.getnode(n).expect("node").cells.iter().map(|cell| cell.0.clone()).collect()
    };
    assert_eq!(keys(kept, &mut b), vec![key(1), key(3), key(4)]);
    assert_eq!(keys(last, &mut b), vec![key(5), key(6)]);
    assert_eq!(keys(gone, &mut b), vec![]);
    let freed = b.getnode(gone).expect("node");
    assert_eq!((freed.left, freed.right), (0, 0));
    assert_eq!(b.getnode(last).expect("node").left, kept);
    assert_eq!(b.new_free_page, vec![gone]);
    assert_eq!(b.new_tree(), Some(gone));
}

#[test]
fn an_existing_database_is_opened_as_it_is() {
    let mut b = new_btree();
    assert!(BTreeCursor::new_root().insert(&mut b, &key(1), &value(10)));
    assert!(b.end_transaction_write());
    let files = (b.pager.journal.db.clone(), b.pager.journal.journal.clone());
    let again = BTree::new(Pager::new(files.0.clone(), files.1, "laws".to_string()), 2);
    let mut session = Session::open(again, false).expect("session");
    assert_eq!(session.vm.btree.pager.journal.db, files.0);
    assert_eq!(read(&mut session.vm.btree, 1, 1), Some(10));
    let none = BTree::new(Pager::new(Vec::new(), None, "laws".to_string()), 2);
    assert!(Session::open(none, false).is_none());
}

#[test]
fn a_rollback_without_a_transaction_changes_nothing() {
    let mut b = new_btree();
    assert!(BTreeCursor::new_root().insert(&mut b, &key(1), &value(10)));
    assert!(b.end_transaction_write());
    let db = b.pager.journal.db.clone();
    b.rollback();
    assert_eq!(b.pager.journal.db, db);
    assert_eq!(read(&mut b, 1, 1), Some(10));
}

#[test]
fn a_commit_without_a_transaction_needs_a_journal() {
    let mut b = new_btree();
    assert!(b.end_transaction_write());
    let db = b.pager.journal.db.clone();
    let mut vm = VMInstance::new(b);
    assert!(matches!(
        vm.execute(&Operation::CommitTransaction(CommitTransaction), &RealAnswers::new()),
        Step::Done
    ));
    assert_eq!(vm.btree.pager.journal.db, db);
    let mut fresh = BTree::new(Pager::new(db, None, "laws".to_string()), 2);
    assert!(fresh.begin_transaction_read());
    let mut vm = VMInstance::new(fresh);
    assert!(matches!(
        vm.execute(&Operation::CommitTransaction(CommitTransaction), &RealAnswers::new()),
        Step::Failed
    ));
}

#[test]
fn a_dropped_table_is_gone() {
    let mut b = new_btree();
    let structure = TableStructure { columns: vec![] };
    for name in ["a", "b", "c"] {
        let p = b.new_tree().expect("tree");
        assert!(SchemaManager::create_table(&mut b, name, p, &structure));
    }
    assert!(SchemaManager::drop_table(&mut b, "b"));
    assert!(!SchemaManager::table_exists(&mut b, "b"));
    assert!(!SchemaManager::drop_table(&mut b, "b"));
    assert_eq!(SchemaManager::table_names(&mut b), vec!["a".to_string(), "c".to_string()]);
}

#[test]
fn a_split_node_has_no_page_yet() {
    let mut b = new_btree();
    let mut c = BTreeCursor::new_root();
    for n in 0..3 {
        assert!(c.insert(&mut b, &key(n), &value(n)));
    }
    let mut node = b.getnode(1).expect("node");
    let right = node.split();
    assert_eq!((right.pgno, right.left, right.right), (0, 0, 0));
    assert_eq!((node.cells.len(), right.cells.len()), (1, 2));
}

/// The keys of the tree of page 1.
fn keys(btree: &mut BTree) -> Vec<u64> {
    (0..60).filter(|n| read(btree, 1, *n).is_some()).collect()
}

#[test]
fn a_crash_leaves_the_old_rows_or_the_new_ones() {
    let mut b = new_btree();
    for n in 0..12 {
        assert!(BTreeCursor::new_root().insert(&mut b, &key(n), &value(n)));
    }
    assert!(b.end_transaction_write());
    let files = Files::new().after(&b.pager.journal.take_ops());
    let old = keys(&mut files.open());
    assert_eq!(old, (0..12).collect::<Vec<u64>>());

    b.begin_transaction_write();
    for n in 12..60 {
        assert!(BTreeCursor::new_root().insert(&mut b, &key(n), &value(n)));
    }
    for n in 0..6 {
        assert!(BTreeCursor::new_root().remove(&mut b, &key(n)));
    }
    assert!(b.end_transaction_write());
    let ops = b.pager.journal.take_ops();
    let new: Vec<u64> = (6..60).collect();
    let mut moments = 0;
    let mut seen_new = false;
    for k in 0..=ops.len() {
        let emptied = k > 0
            && matches!(&ops[k - 1], FileOp::WriteJournal { offset: 16, bytes } if bytes[0] == 1);
        if emptied {
            moments += 1;
            continue;
        }
        let found = keys(&mut files.after(&ops[..k]).open());
        assert!(found == old && !seen_new || found == new, "stopped after {k}");
        seen_new = found == new;
    }
    assert_eq!(moments, 1);
    assert!(seen_new);
}

#[test]
fn a_crash_in_a_rollback_leaves_the_old_rows() {
    let mut b = new_btree();
    for n in 0..12 {
        assert!(BTreeCursor::new_root().insert(&mut b, &key(n), &value(n)));
    }
    assert!(b.end_transaction_write());
    b.begin_transaction_write();
    for n in 12..60 {
        assert!(BTreeCursor::new_root().insert(&mut b, &key(n), &value(n)));
    }
    let files = Files::new().after(&b.pager.journal.take_ops());
    b.rollback();
    let ops = b.pager.journal.take_ops();
    for k in 0..=ops.len() {
        let mut again = files.after(&ops[..k]).open();
        assert_eq!(keys(&mut again), (0..12).collect::<Vec<u64>>());
    }

    // A rollback by a reader can stop anywhere too.
    let mut c = BTree::new(files.pager(), 2);
    assert!(c.begin_transaction_read());
    let ops = c.pager.journal.take_ops();
    assert!(ops.len() > 5);
    for k in 0..=ops.len() {
        let mut again = files.after(&ops[..k]).open();
        assert_eq!(keys(&mut again), (0..12).collect::<Vec<u64>>());
    }
}

#[test]
fn a_commit_asks_for_its_steps_in_order() {
    let mut b = new_btree();
    b.pager.journal.take_ops();
    assert!(BTreeCursor::new_root().insert(&mut b, &key(1), &value(1)));
    assert!(b.end_transaction_write());
    let steps: Vec<String> = b
        .pager
        .journal
        .take_ops()
        .iter()
        .map(|op| match op {
            FileOp::WriteDb { offset, .. } => format!("page {}", offset / PAGE_SIZE),
            FileOp::WriteJournal { offset, .. } => format!("journal {offset}"),
            other => format!("{other:?}"),
        })
        .collect();
    assert_eq!(
        steps,
        vec![
            "journal 4096",
            "LockExclusive { byte: 0 }",
            "Unlock { byte: 2 }",
            "LockExclusive { byte: 2 }",
            "SyncJournal",
            "page 0",
            "page 1",
            "SyncDb",
            "journal 16",
            "SyncJournal",
            "Unlock { byte: 2 }",
            "Unlock { byte: 1 }",
            "Unlock { byte: 0 }",
        ]
    );
}

#[test]
fn readers_and_writers_hold_their_locks() {
    let mut b = new_btree();
    assert!(b.end_transaction_write());
    assert_eq!(b.pager.journal.dblock, 0);
    assert!(b.begin_transaction_read());
    assert_eq!(b.pager.journal.dblock, 1);
    b.begin_transaction_write();
    assert_eq!(b.pager.journal.dblock, 2);
    assert!(b.end_transaction_write());
    assert_eq!(b.pager.journal.dblock, 0);
}

#[test]
fn bytes_behind_the_pages_stay() {
    let mut b = new_btree();
    assert!(BTreeCursor::new_root().insert(&mut b, &key(1), &value(1)));
    assert!(b.end_transaction_write());
    let mut files = Files::new().after(&b.pager.journal.take_ops());
    files.db.extend_from_slice(&[7; 100]);
    let mut c = files.open();
    c.begin_transaction_write();
    assert!(BTreeCursor::new_root().insert(&mut c, &key(2), &value(2)));
    assert!(c.end_transaction_write());
    let files = files.after(&c.pager.journal.take_ops());
    assert_eq!(files.db.len(), 2 * PAGE_SIZE + 100);
    assert_eq!(&files.db[2 * PAGE_SIZE..], &[7; 100]);
    assert_eq!(keys(&mut files.open()), vec![1, 2]);
}

#[test]
fn what_another_program_wrote_is_read_again() {
    let mut b = new_btree();
    assert!(b.end_transaction_write());
    let files = Files::new().after(&b.pager.journal.take_ops());
    let mut c = files.open();
    assert_eq!(keys(&mut c), Vec::<u64>::new());
    c.end_transaction_read();

    let mut other = files.open();
    other.begin_transaction_write();
    for n in 0..20 {
        assert!(BTreeCursor::new_root().insert(&mut other, &key(n), &value(n)));
    }
    assert!(other.end_transaction_write());
    let files = files.after(&other.pager.journal.take_ops());

    c.come_in();
    assert!(!c.read_again(files.db.clone(), files.journal.clone()));
    c.pager.journal.take_ops();
    assert!(c.read_again(files.db.clone(), files.journal.clone()));
    assert_eq!(keys(&mut c), (0..20).collect::<Vec<u64>>());
    c.begin_transaction_write();
    assert!(!c.read_again(files.db, files.journal));
}

#[test]
fn free_pages_are_taken_before_pages_are_added() {
    let mut b = new_btree();
    let p = b.get_newpage().expect("page");
    assert_eq!(p, 2);
    assert_eq!(b.get_newpage(), Some(3));
    b.set_page_free(3);
    b.set_page_free(2);
    assert_eq!(b.get_newpage(), Some(3));
    assert_eq!(b.newnode(true, true).expect("node").pgno, 2);
    assert_eq!(b.pager.total_pages, 4);
    assert_eq!(b.new_tree(), Some(4));
    b.set_page_free(4);
    b.set_page_free(2);
    assert!(b.end_transaction_write());
    assert_eq!(b.get_freelist_first(), 2);
    b.begin_transaction_write();
    assert_eq!(b.new_tree(), Some(2));
    assert_eq!(b.get_freelist_first(), 4);
    assert_eq!(b.acquire_free_pgno(), Some(4));
    assert_eq!(b.acquire_free_pgno(), None);
    assert_eq!(b.get_newpage(), Some(5));
}

#[test]
fn users_of_pages_are_counted() {
    let mut b = new_btree();
    assert!(b.end_transaction_write());
    let first = b.pager.fetch(0).expect("page");
    let second = b.pager.fetch(1).expect("page");
    assert_eq!(b.pager.fetch(0), Some(first));
    assert_eq!(b.pager.pages_hash[first].refcnt, 2);
    assert_eq!(b.pager.pages_hash[second].refcnt, 1);
    b.pager.release(first);
    assert_eq!(b.pager.pages_hash[first].refcnt, 1);
}

#[test]
fn zeros_of_both_signs_are_one_key_and_stay_as_given() {
    let mut b = new_btree();
    let plus = BTreeDataType::Real(0.0f64.to_bits());
    let minus = BTreeDataType::Real((-0.0f64).to_bits());
    let mut c = BTreeCursor::new_root();
    assert!(c.insert(&mut b, &BTreeDataType::Real(1.0f64.to_bits()), &value(1)));
    assert!(c.insert(&mut b, &minus, &value(7)));
    assert!(!c.insert(&mut b, &plus, &value(8)));
    assert!(c.get_val(&mut b, &plus).is_some());
    assert!(c.moveto_key_entry(&mut b, &plus));
    let (found, _) = c.current_entry(&mut b).expect("entry");
    assert!(matches!(found, BTreeDataType::Real(bits) if bits == (-0.0f64).to_bits()));
    assert!(c.remove(&mut b, &plus));
    assert!(c.get_val(&mut b, &minus).is_none());
    assert!(c.insert(&mut b, &plus, &value(9)));
    assert!(c.moveto_key_entry(&mut b, &minus));
    let (found, _) = c.current_entry(&mut b).expect("entry");
    assert!(matches!(found, BTreeDataType::Real(0)));
}

#[test]
fn the_page_not_used_for_longest_leaves_the_cache() {
    let mut b = new_btree();
    for _ in 0..20 {
        b.get_newpage().expect("page");
    }
    let last = *b.pager.lru.last().expect("unused page");
    let missing = (0..20u32)
        .find(|p| b.pager.pages_hash.iter().all(|x| x.inner.pgno != *p))
        .expect("page outside the cache");
    let slot = b.pager.fetch(missing).expect("page");
    assert_eq!(b.pager.pagecnt(), 10);
    assert!(b.pager.pages_hash.iter().all(|x| x.inner.pgno != last));
    assert!(!b.pager.lru.contains(&missing));
    b.pager.release(slot);
    assert_eq!(b.pager.lru[0], missing);
}
