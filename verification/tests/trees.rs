use minisqlr::engine::btree::BTree;
use minisqlr::engine::cursor::BTreeCursor;
use minisqlr::engine::journal::FileOp;
use minisqlr::engine::node::PAGE_SIZE;
use minisqlr::engine::pages::Pager;
use minisqlr::engine::record::BTreeValueType;
use minisqlr::engine::value::BTreeDataType;

/// The contents of the two files of a database.
struct Files {
    name: String,
    db: Option<Vec<u8>>,
    journal: Option<Vec<u8>>,
}

/// Performs file operations on the contents of the two files.
fn perform(db: &mut Vec<u8>, journal: &mut Option<Vec<u8>>, ops: &[FileOp]) {
    let write = |file: &mut Vec<u8>, offset: usize, bytes: &[u8]| {
        if file.len() < offset + bytes.len() {
            file.resize(offset + bytes.len(), 0);
        }
        file[offset..offset + bytes.len()].copy_from_slice(bytes);
    };
    for op in ops {
        match op {
            FileOp::WriteDb { offset, bytes } => write(db, *offset, bytes),
            FileOp::SetDbLen { len } => db.resize(*len, 0),
            FileOp::CreateJournal { bytes } => *journal = Some(bytes.clone()),
            FileOp::WriteJournal { offset, bytes } => {
                write(journal.as_mut().expect("journal"), *offset, bytes)
            }
            FileOp::SetJournalLen { len } => journal.as_mut().expect("journal").resize(*len, 0),
            FileOp::DeleteJournal => *journal = None,
            _ => {}
        }
    }
}

impl Files {
    fn new(name: &str) -> Files {
        Files { name: name.to_string(), db: None, journal: None }
    }

    /// Performs what the trees have asked for since the last time.
    fn keep(&mut self, btree: &mut BTree) {
        let mut db = Pager::create_or_opendb(self.db.take());
        perform(&mut db, &mut self.journal, &btree.pager.journal.take_ops());
        self.db = Some(db);
    }

    fn pager(&self) -> Pager {
        let db = Pager::create_or_opendb(self.db.clone());
        Pager::new(db, self.journal.clone(), self.name.clone())
    }
}

fn create_btree(files: &Files, m: usize) -> BTree {
    let mut btree = BTree::new(files.pager(), m);
    assert!(btree.create_db());
    btree
}

fn open_btree(files: &Files, m: usize) -> BTree {
    let mut btree = BTree::new(files.pager(), m);
    assert!(btree.begin_transaction_read());
    btree
}

#[test]
fn null_values_round_trip() {
    let value = BTreeValueType {
        v: vec![BTreeDataType::Null, BTreeDataType::Integer(7)],
    };

    let decoded = BTreeValueType::new(&value.get_bytes());

    assert!(matches!(decoded.v[0], BTreeDataType::Null));
    assert!(matches!(decoded.v[1], BTreeDataType::Integer(7)));
}

#[test]
fn first_leaf_insert_is_persisted() {
    let mut files = Files::new("first_insert");

    let mut btree = create_btree(&files, 2);
    {
        {
            let mut cursor = BTreeCursor::new_root();
            assert!(cursor.insert(&mut btree, 
                &BTreeDataType::Integer(42),
                &BTreeValueType::new_single(BTreeDataType::Integer(9)),
            ));
        }
        assert!(btree.end_transaction_write());
        files.keep(&mut btree);
    }

    {
        let mut btree = open_btree(&files, 2);
        let mut cursor = BTreeCursor::new_root();
        assert!(cursor.get_val(&mut btree, &BTreeDataType::Integer(42)).is_some());
        btree.end_transaction_read();
        files.keep(&mut btree);
    }
}

#[test]
fn deleting_leaf_max_updates_parent_separator() {
    let mut files = Files::new("delete_parent_separator");

    {
        let mut btree = create_btree(&files, 2);
        {
            let mut cursor = BTreeCursor::new_root();
            for key in [1, 2, 3, 4, 0] {
                assert!(cursor.insert(&mut btree, 
                    &BTreeDataType::Integer(key),
                    &BTreeValueType::new_single(BTreeDataType::Integer(key + 100)),
                ));
            }

            assert!(cursor.remove(&mut btree, &BTreeDataType::Integer(2)));
        }

        let root = btree.get_rootpage().expect("root page");
        assert!(matches!(root.cells[0].0, BTreeDataType::Integer(1)));
        assert!(btree.end_transaction_write());
        files.keep(&mut btree);
    }
}

#[test]
fn deleting_underfull_leaf_keeps_remaining_keys_searchable() {
    let mut files = Files::new("delete_rebalance");

    {
        let mut btree = create_btree(&files, 2);
        {
            let mut cursor = BTreeCursor::new_root();
            for key in [1, 2, 3, 4] {
                assert!(cursor.insert(&mut btree, 
                    &BTreeDataType::Integer(key),
                    &BTreeValueType::new_single(BTreeDataType::Integer(key + 100)),
                ));
            }

            assert!(cursor.remove(&mut btree, &BTreeDataType::Integer(2)));
            assert!(cursor.get_val(&mut btree, &BTreeDataType::Integer(1)).is_some());
            assert!(cursor.get_val(&mut btree, &BTreeDataType::Integer(2)).is_none());
            assert!(cursor.get_val(&mut btree, &BTreeDataType::Integer(3)).is_some());
            assert!(cursor.get_val(&mut btree, &BTreeDataType::Integer(4)).is_some());
        }
        assert!(btree.end_transaction_write());
        files.keep(&mut btree);
    }
}

#[test]
fn mixed_insert_remove_orders_round_trip() {
    for round in 0..20 {
        let mut files = Files::new(&format!("mixed_orders_{round}"));

        let mut expected = [false; 40];
        let insert_order = shuffled_keys(40, round as u64 * 17 + 5);
        let remove_order = shuffled_keys(40, round as u64 * 31 + 11);

        {
            let mut btree = create_btree(&files, 2);
            {
                let mut cursor = BTreeCursor::new_root();

                for key in insert_order {
                    assert!(cursor.insert(&mut btree, 
                        &BTreeDataType::Integer(key),
                        &BTreeValueType::new_single(BTreeDataType::Integer(key + 1000)),
                    ));
                    expected[key as usize] = true;
                }

                for key in 0..40 {
                    assert!(!cursor.insert(&mut btree, 
                        &BTreeDataType::Integer(key),
                        &BTreeValueType::new_single(BTreeDataType::Integer(key + 2000)),
                    ));
                }

                for key in remove_order.iter().take(23) {
                    assert!(cursor.remove(&mut btree, &BTreeDataType::Integer(*key)));
                    expected[*key as usize] = false;
                }

                for key in 0..40 {
                    assert_eq!(
                        cursor.get_val(&mut btree, &BTreeDataType::Integer(key)).is_some(),
                        expected[key as usize],
                        "round {round}, key {key}"
                    );
                }
            }
            assert!(btree.end_transaction_write());
            files.keep(&mut btree);
        }

        {
            let mut btree = open_btree(&files, 2);
            let mut cursor = BTreeCursor::new_root();
            for key in 0..40 {
                assert_eq!(
                    cursor.get_val(&mut btree, &BTreeDataType::Integer(key)).is_some(),
                    expected[key as usize],
                    "persisted round {round}, key {key}"
                );
            }
            btree.end_transaction_read();
            files.keep(&mut btree);
        }
    }
}

#[test]
fn structural_invariants_survive_larger_random_workload() {
    for round in 0..12 {
        let mut files = Files::new(&format!("structural_{round}"));

        let mut expected = vec![false; 96];
        let mut ops = shuffled_keys(240, round as u64 * 97 + 23);

        {
            let mut btree = create_btree(&files, 2);
            {
                let mut cursor = BTreeCursor::new_root();

                for key in shuffled_keys(96, round as u64 * 41 + 7) {
                    assert!(cursor.insert(&mut btree, 
                        &BTreeDataType::Integer(key),
                        &BTreeValueType::new_single(BTreeDataType::Integer(key + 3000)),
                    ));
                    expected[key as usize] = true;
                    assert_tree_matches(
                        &mut btree,
                        &expected,
                        &format!("round {round} insert {key}"),
                    );
                }

                for step in 0..ops.len() {
                    let key = ops[step] % 96;
                    if (ops[step].wrapping_add(round as u64) % 3) == 0 {
                        assert_eq!(
                            cursor.remove(&mut btree, &BTreeDataType::Integer(key)),
                            expected[key as usize],
                            "round {round}, step {step}, remove {key}"
                        );
                        expected[key as usize] = false;
                    } else {
                        assert_eq!(
                            cursor.insert(&mut btree, 
                                &BTreeDataType::Integer(key),
                                &BTreeValueType::new_single(BTreeDataType::Integer(key + 4000)),
                            ),
                            !expected[key as usize],
                            "round {round}, step {step}, insert {key}"
                        );
                        expected[key as usize] = true;
                    }

                    assert_tree_matches(
                        &mut btree,
                        &expected,
                        &format!("round {round} step {step}"),
                    );
                }
            }
            assert!(btree.end_transaction_write());
            files.keep(&mut btree);
        }

        {
            let mut btree = open_btree(&files, 2);
            assert_tree_matches(&mut btree, &expected, &format!("round {round} persisted"));
            btree.end_transaction_read();
            files.keep(&mut btree);
        }
        ops.clear();
    }
}

#[test]
fn removing_all_keys_leaves_tree_reusable() {
    let mut files = Files::new("remove_all_reuse");

    {
        let mut btree = create_btree(&files, 2);
        let mut expected = vec![false; 64];
        {
            let mut cursor = BTreeCursor::new_root();
            for key in shuffled_keys(64, 71) {
                assert!(cursor.insert(&mut btree, 
                    &BTreeDataType::Integer(key),
                    &BTreeValueType::new_single(BTreeDataType::Integer(key + 5000)),
                ));
                expected[key as usize] = true;
            }
            assert_tree_matches(&mut btree, &expected, "remove_all inserted");

            for key in shuffled_keys(64, 131) {
                assert!(cursor.remove(&mut btree, &BTreeDataType::Integer(key)));
                expected[key as usize] = false;
                assert_tree_matches(&mut btree, &expected, &format!("remove_all remove {key}"));
            }

            for key in shuffled_keys(64, 197) {
                assert!(cursor.insert(&mut btree, 
                    &BTreeDataType::Integer(key),
                    &BTreeValueType::new_single(BTreeDataType::Integer(key + 6000)),
                ));
                expected[key as usize] = true;
                assert_tree_matches(&mut btree, &expected, &format!("remove_all reinsert {key}"));
            }
        }
        assert!(btree.end_transaction_write());
        files.keep(&mut btree);
    }

    {
        let mut btree = open_btree(&files, 2);
        assert_tree_matches(&mut btree, &vec![true; 64], "remove_all persisted");
        btree.end_transaction_read();
        files.keep(&mut btree);
    }
}

#[test]
fn rollback_uses_current_transaction_backups() {
    let mut files = Files::new("rollback_current_transaction");

    let mut btree = create_btree(&files, 2);
    {
        {
            let mut cursor = BTreeCursor::new_root();
            assert!(cursor.insert(&mut btree, 
                &BTreeDataType::Integer(1),
                &BTreeValueType::new_single(BTreeDataType::Integer(10)),
            ));
        }
        assert!(btree.end_transaction_write());
        files.keep(&mut btree);
    }

    {
        btree.begin_transaction_write();
        {
            let mut cursor = BTreeCursor::new_root();
            assert!(cursor.insert(&mut btree, 
                &BTreeDataType::Integer(2),
                &BTreeValueType::new_single(BTreeDataType::Integer(20)),
            ));
        }
        for idx in 0..32 {
            let mut node = btree.newnode(true, true).expect("new page");
            node.cells.push((
                BTreeDataType::Integer(10_000 + idx),
                BTreeValueType::new_single(BTreeDataType::Integer(idx)),
            ));
            assert!(btree.putnode(&node));
        }
    }
    files.keep(&mut btree);
    drop(btree);

    {
        let mut btree = open_btree(&files, 2);
        let mut cursor = BTreeCursor::new_root();
        assert!(
            cursor.get_val(&mut btree, &BTreeDataType::Integer(1)).is_some(),
            "committed key should survive rollback"
        );
        assert!(
            cursor.get_val(&mut btree, &BTreeDataType::Integer(2)).is_none(),
            "uncommitted key should be rolled back"
        );
        btree.end_transaction_read();
        files.keep(&mut btree);
    }
    assert_eq!(
        files.db.as_ref().expect("db contents").len(),
        2 * PAGE_SIZE,
        "rollback should remove pages allocated by the aborted transaction"
    );
}

#[test]
fn rollback_discards_dirty_cached_pages() {
    let mut files = Files::new("rollback_cached_pages");

    let mut btree = create_btree(&files, 2);
    {
        let mut cursor = BTreeCursor::new_root();
        assert!(cursor.insert(&mut btree, 
            &BTreeDataType::Integer(1),
            &BTreeValueType::new_single(BTreeDataType::Integer(10)),
        ));
    }
    assert!(btree.end_transaction_write());
    files.keep(&mut btree);

    btree.begin_transaction_write();
    {
        let mut cursor = BTreeCursor::new_root();
        assert!(cursor.insert(&mut btree, 
            &BTreeDataType::Integer(2),
            &BTreeValueType::new_single(BTreeDataType::Integer(20)),
        ));
    }

    btree.rollback();

    {
        let mut cursor = BTreeCursor::new_root();
        assert!(cursor.get_val(&mut btree, &BTreeDataType::Integer(1)).is_some());
        assert!(
            cursor.get_val(&mut btree, &BTreeDataType::Integer(2)).is_none(),
            "rollback should discard uncommitted cached pages"
        );
    }
}

struct TreeScan {
    keys: Vec<u64>,
    leaves: Vec<u32>,
}

fn assert_tree_matches(btree: &mut BTree, expected: &[bool], context: &str) {
    let scan = scan_node(btree, 1, true, context);
    let expected_keys: Vec<u64> = expected
        .iter()
        .enumerate()
        .filter_map(|(key, present)| present.then_some(key as u64))
        .collect();

    assert_eq!(scan.keys, expected_keys, "{context}");

    if scan.leaves.len() > 1 {
        for pair in scan.leaves.windows(2) {
            let left = btree.getnode(pair[0]).expect("left leaf");
            let right = btree.getnode(pair[1]).expect("right leaf");
            assert_eq!(left.right, pair[1], "{context}: leaf right link");
            assert_eq!(right.left, pair[0], "{context}: leaf left link");
        }
    }
}

fn scan_node(btree: &mut BTree, pgno: u32, is_root: bool, context: &str) -> TreeScan {
    let node = btree.getnode(pgno).expect("page of the tree");

    if node.is_leaf {
        let keys: Vec<u64> = node.cells.iter().map(|(key, _)| integer_key(key)).collect();
        assert_sorted(&keys, context);
        if !is_root {
            assert!(
                keys.len() >= btree.m,
                "{context}: leaf page {pgno} has too few keys"
            );
        }
        assert!(
            keys.len() < 2 * btree.m,
            "{context}: leaf page {pgno} has too many keys"
        );
        return TreeScan {
            keys,
            leaves: vec![pgno],
        };
    }

    assert!(
        node.children_pgno.len() == node.cells.len()
            || node.children_pgno.len() == node.cells.len() + 1,
        "{context}: internal page {pgno} child/key count"
    );
    if !is_root {
        assert!(
            node.cells.len() >= btree.m,
            "{context}: internal page {pgno} has too few keys"
        );
    }
    assert!(
        node.cells.len() < 2 * btree.m,
        "{context}: internal page {pgno} has too many keys"
    );

    let mut all_keys = Vec::new();
    let mut leaves = Vec::new();
    for (idx, child_pgno) in node.children_pgno.iter().enumerate() {
        let child = scan_node(btree, *child_pgno, false, context);
        assert!(
            !child.keys.is_empty(),
            "{context}: internal page {pgno} points at empty child {child_pgno}"
        );
        if idx < node.cells.len() {
            assert_eq!(
                integer_key(&node.cells[idx].0),
                *child.keys.last().expect("child checked nonempty"),
                "{context}: separator on page {pgno} index {idx}"
            );
        }
        all_keys.extend(child.keys);
        leaves.extend(child.leaves);
    }

    assert_sorted(&all_keys, context);
    TreeScan {
        keys: all_keys,
        leaves,
    }
}

fn assert_sorted(keys: &[u64], context: &str) {
    for pair in keys.windows(2) {
        assert!(pair[0] < pair[1], "{context}: keys are not sorted");
    }
}

fn integer_key(key: &BTreeDataType) -> u64 {
    match key {
        BTreeDataType::Integer(value) => *value,
        _ => panic!("expected integer key"),
    }
}

fn shuffled_keys(count: u64, seed: u64) -> Vec<u64> {
    let mut keys: Vec<u64> = (0..count).collect();
    let mut state = seed | 1;

    for i in (1..keys.len()).rev() {
        state = state
            .wrapping_mul(6364136223846793005)
            .wrapping_add(1442695040888963407);
        let j = (state as usize) % (i + 1);
        keys.swap(i, j);
    }

    keys
}
