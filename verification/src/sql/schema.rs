//! The schema: the hidden table, rooted at page 1, of all tables.
//!
//! Its rows are keyed by the name of a table and hold what the row is about, the
//! name, the name of the table, its root page and its columns as JSON.
use vstd::prelude::*;
use vstd::string::StringExecFns;

use crate::engine::btree::BTree;
use crate::engine::cursor::BTreeCursor;
use crate::engine::remove::pruned;
use crate::engine::tree_insert::room;
use crate::engine::whole::new_pages;
use crate::engine::node::CellView;
use crate::engine::record::BTreeValueType;
use crate::engine::tree::{has_key, lower_bound, with_cell, without_key};
use crate::engine::tree_insert::kept;
use crate::engine::value::{BTreeDataType, DataView};
use crate::engine::recovery::group_calls;

verus! {

broadcast use group_calls;

/// A column of a table.
#[derive(Debug, PartialEq)]
pub struct ColumnDef {
    pub name: String,
    pub col_type: String,
    pub nullable: bool,
    pub is_primary_key: bool,
}

/// A column.
#[verifier::ext_equal]
pub struct ColumnDefView {
    pub name: Seq<char>,
    pub col_type: Seq<char>,
    pub nullable: bool,
    pub is_primary_key: bool,
}

/// What is in it.
pub open spec fn column_def_view(e: ColumnDef) -> ColumnDefView {
    ColumnDefView {
        name: e.name@,
        col_type: e.col_type@,
        nullable: e.nullable,
        is_primary_key: e.is_primary_key,
    }
}

impl View for ColumnDef {
    type V = ColumnDefView;

    open spec fn view(&self) -> ColumnDefView {
        column_def_view(*self)
    }
}

/// What is in each.
pub open spec fn column_def_views(s: Seq<ColumnDef>) -> Seq<ColumnDefView> {
    Seq::new(s.len(), |i: int| column_def_view(s[i]))
}

/// A copy.
pub fn copy_column_def(e: &ColumnDef) -> (r: ColumnDef)
    ensures
        r@ == e@,
{
    let r = ColumnDef {
        name: (&e.name).clone(),
        col_type: (&e.col_type).clone(),
        nullable: e.nullable,
        is_primary_key: e.is_primary_key,
    };
    assert(r@ =~~= e@);
    r
}

impl Clone for ColumnDef {
    fn clone(&self) -> (r: Self)
        ensures
            r@ == self@,
    {
        copy_column_def(self)
    }
}

/// A copy.
pub fn copy_column_defs(v: &Vec<ColumnDef>) -> (r: Vec<ColumnDef>)
    ensures
        column_def_views(r@) == column_def_views(v@),
        r@.len() == v@.len(),
{
    let mut r: Vec<ColumnDef> = Vec::new();
    let mut i: usize = 0;
    while i < v.len()
        invariant
            i <= v@.len(),
            r@.len() == i,
            forall|j: int| 0 <= j < i ==> (#[trigger] r@[j])@ == v@[j]@,
        decreases v.len() - i,
    {
        r.push(copy_column_def(&v[i]));
        i = i + 1;
    }
    assert(column_def_views(r@) =~= column_def_views(v@));
    r
}

/// The columns of a table, as the schema keeps them.
#[derive(Debug, PartialEq)]
pub struct TableStructure {
    pub columns: Vec<ColumnDef>,
}

/// The columns of a table.
#[verifier::ext_equal]
pub struct TableStructureView {
    pub columns: Seq<ColumnDefView>,
}

/// What is in it.
pub open spec fn table_structure_view(e: TableStructure) -> TableStructureView {
    TableStructureView { columns: column_def_views(e.columns@) }
}

impl View for TableStructure {
    type V = TableStructureView;

    open spec fn view(&self) -> TableStructureView {
        table_structure_view(*self)
    }
}

/// A copy.
pub fn copy_table_structure(e: &TableStructure) -> (r: TableStructure)
    ensures
        r@ == e@,
{
    let r = TableStructure { columns: copy_column_defs((&e.columns)) };
    assert(r@ =~~= e@);
    r
}

impl Clone for TableStructure {
    fn clone(&self) -> (r: Self)
        ensures
            r@ == self@,
    {
        copy_table_structure(self)
    }
}

/// What a row of the schema is about.
#[derive(Clone, Copy, Debug, PartialEq, Eq, Structural)]
pub enum SchemaType {
    Table,
    Index,
    View,
    Trigger,
}

/// A row of the schema.
#[derive(Debug, PartialEq)]
pub struct SchemaInfo {
    pub schema_type: SchemaType,
    pub name: String,
    pub tbl_name: String,
    pub root_pgno: u32,
    pub structure_json: String,
}

/// A row of the schema.
#[verifier::ext_equal]
pub struct SchemaInfoView {
    pub schema_type: SchemaType,
    pub name: Seq<char>,
    pub tbl_name: Seq<char>,
    pub root_pgno: u32,
    pub structure_json: Seq<char>,
}

/// What is in it.
pub open spec fn schema_info_view(e: SchemaInfo) -> SchemaInfoView {
    SchemaInfoView {
        schema_type: e.schema_type,
        name: e.name@,
        tbl_name: e.tbl_name@,
        root_pgno: e.root_pgno,
        structure_json: e.structure_json@,
    }
}

impl View for SchemaInfo {
    type V = SchemaInfoView;

    open spec fn view(&self) -> SchemaInfoView {
        schema_info_view(*self)
    }
}

/// What is in each.
pub open spec fn schema_info_views(s: Seq<SchemaInfo>) -> Seq<SchemaInfoView> {
    Seq::new(s.len(), |i: int| schema_info_view(s[i]))
}

/// A copy.
pub fn copy_schema_info(e: &SchemaInfo) -> (r: SchemaInfo)
    ensures
        r@ == e@,
{
    let r = SchemaInfo {
        schema_type: e.schema_type,
        name: (&e.name).clone(),
        tbl_name: (&e.tbl_name).clone(),
        root_pgno: e.root_pgno,
        structure_json: (&e.structure_json).clone(),
    };
    assert(r@ =~~= e@);
    r
}

impl Clone for SchemaInfo {
    fn clone(&self) -> (r: Self)
        ensures
            r@ == self@,
    {
        copy_schema_info(self)
    }
}

impl SchemaType {
    /// The word for it.
    pub open spec fn word(self) -> Seq<char> {
        match self {
            SchemaType::Table => "table"@,
            SchemaType::Index => "index"@,
            SchemaType::View => "view"@,
            SchemaType::Trigger => "trigger"@,
        }
    }

    /// The word for it.
    pub fn as_str(&self) -> (r: &'static str)
        ensures
            r@ == self.word(),
    {
        match self {
            SchemaType::Table => "table",
            SchemaType::Index => "index",
            SchemaType::View => "view",
            SchemaType::Trigger => "trigger",
        }
    }

    /// What a word stands for.
    pub fn from_str(s: &str) -> (r: Option<SchemaType>)
        ensures
            r == type_of_word(s@),
    {
        let word = String::from_str(s);
        if word == String::from_str("table") {
            Some(SchemaType::Table)
        } else if word == String::from_str("index") {
            Some(SchemaType::Index)
        } else if word == String::from_str("view") {
            Some(SchemaType::View)
        } else if word == String::from_str("trigger") {
            Some(SchemaType::Trigger)
        } else {
            None
        }
    }
}

/// What a word stands for.
pub open spec fn type_of_word(s: Seq<char>) -> Option<SchemaType> {
    if s == "table"@ {
        Some(SchemaType::Table)
    } else if s == "index"@ {
        Some(SchemaType::Index)
    } else if s == "view"@ {
        Some(SchemaType::View)
    } else if s == "trigger"@ {
        Some(SchemaType::Trigger)
    } else {
        None
    }
}

/// The word for a type stands for it.
pub proof fn word_round_trip(t: SchemaType)
    ensures
        type_of_word(t.word()) == Some(t),
{
    reveal_strlit("table");
    reveal_strlit("index");
    reveal_strlit("view");
    reveal_strlit("trigger");
    assert("table"@.len() == 5);
    assert("index"@.len() == 5);
    assert("view"@.len() == 4);
    assert("trigger"@.len() == 7);
    assert("table"@[0] == 't');
    assert("index"@[0] == 'i');
}

// -- Columns as JSON -------------------------------------------

/// A hexadecimal digit.
pub open spec fn hex_digit(n: int) -> char {
    if n < 10 {
        (48 + n) as char
    } else {
        (87 + n) as char
    }
}

/// A character in a JSON string.
pub open spec fn json_char(c: char) -> Seq<char> {
    let n = c as int;
    if n == 34 || n == 92 {
        seq!['\\', c]
    } else if n == 8 {
        seq!['\\', 'b']
    } else if n == 9 {
        seq!['\\', 't']
    } else if n == 10 {
        seq!['\\', 'n']
    } else if n == 12 {
        seq!['\\', 'f']
    } else if n == 13 {
        seq!['\\', 'r']
    } else if n < 32 {
        seq!['\\', 'u', '0', '0', hex_digit(n / 16), hex_digit(n % 16)]
    } else {
        seq![c]
    }
}

/// Characters in a JSON string.
pub open spec fn json_chars(s: Seq<char>) -> Seq<char>
    decreases s.len(),
{
    if s.len() == 0 {
        seq![]
    } else {
        json_chars(s.drop_last()) + json_char(s.last())
    }
}

/// A text as a JSON string.
pub open spec fn json_string(s: Seq<char>) -> Seq<char> {
    seq!['"'] + json_chars(s) + seq!['"']
}

/// Whether a text can stand in a JSON string as it is.
pub open spec fn is_plain_text(s: Seq<char>) -> bool {
    forall|i: int|
        0 <= i < s.len() ==> (#[trigger] s[i]) as int >= 32 && s[i] != '"' && s[i] != '\\'
}

/// A text without quotes, backslashes and control characters stands in JSON as it is.
pub proof fn plain_text_as_is(s: Seq<char>)
    requires
        is_plain_text(s),
    ensures
        json_chars(s) == s,
        json_string(s) == seq!['"'] + s + seq!['"'],
    decreases s.len(),
{
    if s.len() > 0 {
        let d = s.drop_last();
        assert forall|i: int| 0 <= i < d.len() implies (#[trigger] d[i]) as int >= 32 && d[i]
            != '"' && d[i] != '\\' by {
            assert(d[i] == s[i]);
        }
        plain_text_as_is(d);
        let c = s[s.len() - 1];
        assert(c as int >= 32 && c != '"' && c != '\\');
        assert(c as int != 34 && c as int != 92);
        assert(json_char(c) =~= seq![c]);
        assert(s =~= d + seq![c]);
    } else {
        assert(json_chars(s) =~= s);
    }
}

/// Calls `serde_json::to_string` on a text: the text between quotes, with a backslash
/// before quotes and backslashes, and with escapes for control characters. Writing a
/// text to a string does not fail.
#[verifier::external_body]
pub(crate) fn quote_json(s: &str) -> (r: Option<String>)
    ensures
        r is Some,
        r->0@ == json_string(s@),
{
    serde_json::to_string(s).ok()
}

/// A truth value in JSON.
pub open spec fn json_bool(b: bool) -> Seq<char> {
    if b {
        "true"@
    } else {
        "false"@
    }
}

/// A column in JSON.
pub open spec fn json_column(c: ColumnDefView) -> Seq<char> {
    "{\"name\":"@ + json_string(c.name) + ",\"col_type\":"@ + json_string(c.col_type)
        + ",\"nullable\":"@ + json_bool(c.nullable) + ",\"is_primary_key\":"@ + json_bool(
        c.is_primary_key,
    ) + "}"@
}

/// Columns in JSON, with commas between them.
pub open spec fn json_columns(c: Seq<ColumnDefView>) -> Seq<char>
    decreases c.len(),
{
    if c.len() == 0 {
        seq![]
    } else if c.len() == 1 {
        json_column(c[0])
    } else {
        json_columns(c.drop_last()) + ","@ + json_column(c.last())
    }
}

/// The columns of a table in JSON.
pub open spec fn json_structure(t: TableStructureView) -> Seq<char> {
    "{\"columns\":["@ + json_columns(t.columns) + "]}"@
}

fn push_bool(s: &mut String, b: bool)
    ensures
        final(s)@ == old(s)@ + json_bool(b),
{
    if b {
        s.append("true");
    } else {
        s.append("false");
    }
}

/// Adds a column in JSON to a text; says whether it was added.
fn push_column(s: &mut String, c: &ColumnDef) -> (r: bool)
    ensures
        r,
        final(s)@ == old(s)@ + json_column(c@),
{
    let ghost before = s@;
    let name = match quote_json(c.name.as_str()) {
        Some(x) => x,
        None => return false,
    };
    let col_type = match quote_json(c.col_type.as_str()) {
        Some(x) => x,
        None => return false,
    };
    s.append("{\"name\":");
    s.append(name.as_str());
    s.append(",\"col_type\":");
    s.append(col_type.as_str());
    s.append(",\"nullable\":");
    push_bool(s, c.nullable);
    s.append(",\"is_primary_key\":");
    push_bool(s, c.is_primary_key);
    s.append("}");
    assert(s@ =~= before + json_column(c@));
    true
}

impl TableStructure {
    /// The columns in JSON.
    pub fn to_json(&self) -> (r: Option<String>)
        ensures
            r is Some,
            r->0@ == json_structure(self@),
    {
        let ghost all = self@.columns;
        let mut s = String::from_str("{\"columns\":[");
        let ghost head = s@;
        let mut i: usize = 0;
        assert(head + json_columns(all.take(0)) =~= head);
        while i < self.columns.len()
            invariant
                all == self@.columns,
                all == column_def_views(self.columns@),
                i <= self.columns@.len(),
                s@ == head + json_columns(all.take(i as int)),
            decreases self.columns.len() - i,
        {
            let c = &self.columns[i];
            assert(all[i as int] == c@);
            let ghost before = s@;
            if i > 0 {
                s.append(",");
            }
            let ghost mid = s@;
            if !push_column(&mut s, c) {
                return None;
            }
            proof {
                let next = all.take(i + 1);
                assert(next.last() == c@);
                assert(next.drop_last() =~= all.take(i as int));
                let a = json_columns(all.take(i as int));
                let c2 = json_column(c@);
                if i == 0 {
                    assert(a =~= seq![]);
                    assert(json_columns(next) == c2);
                    assert(head + a =~= head);
                } else {
                    assert(json_columns(next) == a + ","@ + c2);
                    assert(head + a + ","@ + c2 =~= head + (a + ","@ + c2));
                }
            }
            i = i + 1;
        }
        s.append("]}");
        assert(all.take(all.len() as int) =~= all);
        assert(s@ =~= json_structure(self@));
        Some(s)
    }
}

// -- Rows ------------------------------------------------------

/// The record of a table in the schema.
pub open spec fn table_record(
    name: Seq<char>,
    root_pgno: u32,
    structure: TableStructureView,
) -> Seq<DataView> {
    seq![
        DataView::Text("table"@),
        DataView::Text(name),
        DataView::Text(name),
        DataView::Integer(root_pgno as u64),
        DataView::Text(json_structure(structure)),
    ]
}

/// What a record says, where it is one of the schema.
pub open spec fn info_of(v: Seq<DataView>) -> Option<SchemaInfoView> {
    if v.len() < 5 {
        None
    } else {
        match (v[0], v[1], v[2], v[3], v[4]) {
            (
                DataView::Text(t),
                DataView::Text(name),
                DataView::Text(tbl_name),
                DataView::Integer(n),
                DataView::Text(structure_json),
            ) => match type_of_word(t) {
                Some(schema_type) => Some(
                    SchemaInfoView {
                        schema_type,
                        name,
                        tbl_name,
                        root_pgno: (n % 0x1_0000_0000) as u32,
                        structure_json,
                    },
                ),
                None => None,
            },
            _ => None,
        }
    }
}

/// What the record of a table says.
pub proof fn record_round_trip(name: Seq<char>, root_pgno: u32, structure: TableStructureView)
    ensures
        info_of(table_record(name, root_pgno, structure)) == Some(
            SchemaInfoView {
                schema_type: SchemaType::Table,
                name,
                tbl_name: name,
                root_pgno,
                structure_json: json_structure(structure),
            },
        ),
{
    word_round_trip(SchemaType::Table);
}

/// What all rows of the schema say, in order.
pub open spec fn infos_of(e: Seq<CellView>) -> Seq<SchemaInfoView>
    decreases e.len(),
{
    if e.len() == 0 {
        seq![]
    } else {
        match info_of(e.last().1) {
            Some(info) => infos_of(e.drop_last()).push(info),
            None => infos_of(e.drop_last()),
        }
    }
}

/// The key of a table in the schema.
pub open spec fn table_key(name: Seq<char>) -> DataView {
    DataView::Text(name)
}

/// What the schema says of a table.
pub open spec fn table_info(e: Seq<CellView>, name: Seq<char>) -> Option<SchemaInfoView> {
    if has_key(e, table_key(name)) {
        info_of(e[lower_bound(e, table_key(name)) as int].1)
    } else {
        None
    }
}

/// A row of the schema, where there is one.
pub open spec fn info_view(i: Option<SchemaInfo>) -> Option<SchemaInfoView> {
    match i {
        Some(z) => Some(z@),
        None => None,
    }
}

/// What putting a table into the schema does.
pub open spec fn table_put(
    a: &BTree,
    b: &BTree,
    name: Seq<char>,
    root_pgno: u32,
    structure: TableStructureView,
    r: bool,
) -> bool {
    &&& b.wf()
    &&& b.m == a.m
    &&& b.is_write == a.is_write
    &&& b.pager.same_transaction(&a.pager)
    &&& ({
        let k = table_key(name);
        let c = (k, table_record(name, root_pgno, structure));
        let e = a.rows(1);
        let h = a.height(1);
        let m = a.m as nat;
        a.is_tree(1) ==> {
            &&& b.is_tree(1)
            &&& r == (a.is_write && !has_key(e, k) && a.can_grow(h + 2int)
                && room(a.store(), 1, h, c, m) is Some)
            &&& r ==> b.rows(1) == with_cell(e, c)
            &&& a.total() <= b.total() <= a.total() + if r {
                new_pages(a.store(), 1, h, c, m)
            } else {
                0
            }
            &&& b.total() <= a.total() + h + 2
            &&& !r ==> b.store() == a.store() && b.free()
                == a.free() && b.rows(1) == e
            &&& kept(
                a.store(),
                a.free(),
                b.store(),
                1,
                h,
                seq![],
                seq![],
            )
            &&& b.free().subset_of(a.free())
        }
    })
}

/// What taking a table out of the schema does.
pub open spec fn table_taken(a: &BTree, b: &BTree, name: Seq<char>, r: bool) -> bool {
    &&& b.wf()
    &&& b.m == a.m
    &&& b.is_write == a.is_write
    &&& b.total() == a.total()
    &&& b.pager.same_transaction(&a.pager)
    &&& ({
        let k = table_key(name);
        let e = a.rows(1);
        let h = a.height(1);
        let m = a.m as nat;
        a.is_tree(1) ==> {
            &&& b.is_tree(1)
            &&& r == (a.is_write && has_key(e, k) && pruned(
                a.store(),
                1,
                h,
                k,
                m,
            ) is Some)
            &&& r ==> b.rows(1) == without_key(e, k)
            &&& !r ==> b.store() == a.store() && b.free()
                == a.free() && b.rows(1) == e
            &&& kept(
                a.store(),
                a.free(),
                b.store(),
                1,
                h,
                seq![],
                seq![],
            )
            &&& forall|x: u32| #[trigger]
                b.owns(1, x) <==> a.owns(1, x) && !b.free().contains(
                    x,
                )
            &&& a.free().subset_of(b.free())
            &&& forall|x: u32|
                b.free().contains(x) && !a.free().contains(x)
                    ==> #[trigger] a.owns(1, x)
        }
    })
}

/// The schema of a database.
pub struct SchemaManager;

impl SchemaManager {
    /// Puts a table into the schema; says whether it was put in.
    pub fn create_table(
        btree: &mut BTree,
        name: &str,
        root_pgno: u32,
        structure: &TableStructure,
    ) -> (r: bool)
        requires
            old(btree).wf(),
        ensures
            table_put(old(btree), final(btree), name@, root_pgno, structure@, r),
    {
        let mut cursor = BTreeCursor::new_root();
        let key = BTreeDataType::Text(String::from_str(name));
        let json = match structure.to_json() {
            Some(s) => s,
            None => return false,
        };
        let mut fields: Vec<BTreeDataType> = Vec::new();
        fields.push(BTreeDataType::Text(String::from_str(SchemaType::Table.as_str())));
        fields.push(BTreeDataType::Text(String::from_str(name)));
        fields.push(BTreeDataType::Text(String::from_str(name)));
        fields.push(BTreeDataType::Integer(root_pgno as u64));
        fields.push(BTreeDataType::Text(json));
        let value = BTreeValueType::from_vec(fields);
        assert(value@ =~= table_record(name@, root_pgno, structure@));
        cursor.insert(btree, &key, &value)
    }

    /// What the schema says of a table.
    pub fn get_table(btree: &mut BTree, name: &str) -> (r: Option<SchemaInfo>)
        requires
            old(btree).wf(),
        ensures
            final(btree).wf(),
            final(btree).same(old(btree)),
            final(btree).store() == old(btree).store(),
            final(btree).total() == old(btree).total(),
            old(btree).free_ok() ==> final(btree).free_ok() && final(btree).free() == old(
                btree).free(),
            old(btree).is_tree(1) ==> info_view(r) == table_info(old(btree).rows(1), name@),
    {
        let mut cursor = BTreeCursor::new_root();
        let key = BTreeDataType::Text(String::from_str(name));
        match cursor.get_val(btree, &key) {
            Some(value) => Self::row_to_info(&value),
            None => None,
        }
    }

    /// Takes a table out of the schema; says whether it was there.
    pub fn drop_table(btree: &mut BTree, name: &str) -> (r: bool)
        requires
            old(btree).wf(),
        ensures
            table_taken(old(btree), final(btree), name@, r),
    {
        let mut cursor = BTreeCursor::new_root();
        let key = BTreeDataType::Text(String::from_str(name));
        cursor.remove(btree, &key)
    }

    /// Whether a table is in the schema.
    pub fn table_exists(btree: &mut BTree, name: &str) -> (r: bool)
        requires
            old(btree).wf(),
        ensures
            final(btree).wf(),
            final(btree).same(old(btree)),
            final(btree).store() == old(btree).store(),
            final(btree).total() == old(btree).total(),
            old(btree).is_tree(1) ==> r == has_key(old(btree).rows(1), table_key(name@)),
    {
        let mut cursor = BTreeCursor::new_root();
        let key = BTreeDataType::Text(String::from_str(name));
        cursor.get_val(btree, &key).is_some()
    }

    /// All rows of the schema, in order.
    #[verifier::rlimit(40)]
    pub fn list_schema(btree: &mut BTree) -> (r: Vec<SchemaInfo>)
        requires
            old(btree).wf(),
        ensures
            final(btree).wf(),
            final(btree).same(old(btree)),
            final(btree).store() == old(btree).store(),
            final(btree).total() == old(btree).total(),
            old(btree).free_ok() ==> final(btree).free_ok() && final(btree).free() == old(
                btree).free(),
            old(btree).is_tree(1) && old(btree).rows(1).len() <= u64::MAX ==> schema_info_views(r@)
                == infos_of(old(btree).rows(1)),
    {
        let ghost before = *btree;
        let ghost good = before.is_tree(1) && before.rows(1).len() <= u64::MAX;
        let ghost e = before.rows(1);
        let mut cursor = BTreeCursor::new_root();
        let mut rows: Vec<SchemaInfo> = Vec::new();
        assert(schema_info_views(rows@) =~= seq![]);
        let first = cursor.moveto_first_entry(btree);
        proof {
            if good {
                btree.same_trees(&before, 1);
            }
        }
        if !first {
            return rows;
        }
        let mut left: u64 = u64::MAX;
        let ghost mut pos: int = 0;
        assert(e.take(0) =~= seq![]);
        while left > 0
            invariant
                before == *old(btree),
                before.wf(),
                btree.wf(),
                btree.same(&before),
                btree.store() == before.store(),
                btree.total() == before.total(),
                before.free_ok() ==> btree.free_ok() && btree.free() == before.free(),
                cursor.root == 1,
                e == before.rows(1),
                good == (before.is_tree(1) && e.len() <= u64::MAX),
                good ==> btree.is_tree(1) && btree.rows(1) == e,
                good ==> pos == u64::MAX - left && 0 <= pos < e.len() && cursor.on_entry(
                    btree,
                    pos,
                ) && !cursor.before_entry && schema_info_views(rows@) == infos_of(
                    e.take(pos),
                ),
            decreases left,
        {
            let ghost mid = *btree;
            let ghost list = rows@;
            let entry = cursor.current_entry(btree);
            proof {
                crate::engine::btree::same_transitive(&before, &mid, btree);
                if good {
                    btree.same_trees(&mid, 1);
                    crate::engine::cursor::entry_same(&mid, btree, cursor, pos);
                    assert(e.take(pos + 1).drop_last() =~= e.take(pos));
                    assert(e.take(pos + 1).last() == e[pos]);
                }
            }
            if let Some((_, value)) = entry {
                if let Some(info) = Self::row_to_info(&value) {
                    rows.push(info);
                    assert(schema_info_views(rows@) =~= schema_info_views(list).push(info@));
                }
            }
            let ghost mid2 = *btree;
            let more = cursor.moveto_next_entry(btree);
            proof {
                crate::engine::btree::same_transitive(&before, &mid2, btree);
                if good {
                    btree.same_trees(&mid2, 1);
                    if !more {
                        assert(e.take(pos + 1) =~= e);
                    }
                    pos = pos + 1;
                }
            }
            if !more {
                return rows;
            }
            left = left - 1;
        }
        rows
    }

    /// The names of all tables, in the order of their characters.
    pub fn table_names(btree: &mut BTree) -> (r: Vec<String>)
        requires
            old(btree).wf(),
        ensures
            final(btree).wf(),
            final(btree).same(old(btree)),
            old(btree).is_tree(1) && old(btree).rows(1).len() <= u64::MAX
                ==> crate::sql::ast::texts(r@).to_multiset() == table_names_of(
                infos_of(old(btree).rows(1)),
            ).to_multiset(),
            names_rise(crate::sql::ast::texts(r@)),
    {
        let infos = Self::list_schema(btree);
        let mut names: Vec<String> = Vec::new();
        let mut i: usize = 0;
        let ghost all = schema_info_views(infos@);
        proof {
            assert(all.take(0) =~= seq![]);
            assert(crate::sql::ast::texts(names@) =~= seq![]);
        }
        while i < infos.len()
            invariant
                i <= infos@.len(),
                all == schema_info_views(infos@),
                names_rise(crate::sql::ast::texts(names@)),
                crate::sql::ast::texts(names@).to_multiset() == table_names_of(
                    all.take(i as int),
                ).to_multiset(),
            decreases infos.len() - i,
        {
            let info = &infos[i];
            proof {
                assert(all[i as int] == info@);
                assert(all.take(i + 1).drop_last() =~= all.take(i as int));
                assert(all.take(i + 1).last() == info@);
            }
            if info.schema_type == SchemaType::Table {
                let ghost before = table_names_of(all.take(i as int));
                add_name(&mut names, info.name.clone());
                proof {
                    vstd::seq_lib::to_multiset_build(before, info@.name);
                }
            }
            i = i + 1;
        }
        assert(all.take(all.len() as int) =~= all);
        names
    }

    /// What a record says, where it is one of the schema.
    pub fn row_to_info(value: &BTreeValueType) -> (r: Option<SchemaInfo>)
        ensures
            info_view(r) == info_of(value@),
    {
        if value.v.len() < 5 {
            return None;
        }
        assert(value@[0] == value.v@[0]@);
        assert(value@[1] == value.v@[1]@);
        assert(value@[2] == value.v@[2]@);
        assert(value@[3] == value.v@[3]@);
        assert(value@[4] == value.v@[4]@);
        match (&value.v[0], &value.v[1], &value.v[2], &value.v[3], &value.v[4]) {
            (
                BTreeDataType::Text(t),
                BTreeDataType::Text(name),
                BTreeDataType::Text(tbl_name),
                BTreeDataType::Integer(n),
                BTreeDataType::Text(structure),
            ) => match SchemaType::from_str(t.as_str()) {
                Some(schema_type) => Some(
                    SchemaInfo {
                        schema_type,
                        name: name.clone(),
                        tbl_name: tbl_name.clone(),
                        root_pgno: (*n % 0x1_0000_0000) as u32,
                        structure_json: structure.clone(),
                    },
                ),
                None => None,
            },
            _ => None,
        }
    }
}

// -- Names in order --------------------------------------------

/// The names of the tables among rows of the schema.
pub open spec fn table_names_of(i: Seq<SchemaInfoView>) -> Seq<Seq<char>>
    decreases i.len(),
{
    if i.len() == 0 {
        seq![]
    } else if i.last().schema_type == SchemaType::Table {
        table_names_of(i.drop_last()).push(i.last().name)
    } else {
        table_names_of(i.drop_last())
    }
}

/// Whether a name stands behind another: their bytes decide.
pub open spec fn name_after(a: Seq<char>, b: Seq<char>) -> bool {
    crate::engine::order::bytes_lt(vstd::utf8::encode_utf8(b), vstd::utf8::encode_utf8(a))
}

/// Whether no name stands before one that it should stand behind.
pub open spec fn names_rise(l: Seq<Seq<char>>) -> bool {
    forall|i: int, j: int| 0 <= i < j < l.len() ==> !name_after(#[trigger] l[i], #[trigger] l[j])
}

/// Puts a name in its place.
fn add_name(names: &mut Vec<String>, name: String)
    requires
        names_rise(crate::sql::ast::texts(old(names)@)),
    ensures
        names_rise(crate::sql::ast::texts(final(names)@)),
        crate::sql::ast::texts(final(names)@).to_multiset() == crate::sql::ast::texts(
            old(names)@,
        ).to_multiset().insert(name@),
{
    let ghost l = crate::sql::ast::texts(names@);
    let ghost x = name@;
    let mut k: usize = names.len();
    let mut more = true;
    while more && k > 0
        invariant
            k <= names@.len(),
            l == crate::sql::ast::texts(names@),
            x == name@,
            names_rise(l),
            forall|i: int| k <= i < l.len() ==> name_after(#[trigger] l[i], x),
            !more ==> (k > 0 ==> !name_after(l[k - 1], x)),
        decreases k + (if more {
            1int
        } else {
            0int
        }),
    {
        match crate::engine::order::rank_bytes(names[k - 1].as_str().as_bytes(), name.as_str().as_bytes()) {
            crate::engine::order::Rank::Greater => {
                k = k - 1;
            },
            _ => {
                more = false;
            },
        }
        proof {
            crate::engine::order::bytes_lt_irreflexive(vstd::utf8::encode_utf8(x));
            if !more {
                let a = vstd::utf8::encode_utf8(l[k - 1]);
                let b = vstd::utf8::encode_utf8(x);
                if crate::engine::order::bytes_lt(a, b) && crate::engine::order::bytes_lt(b, a) {
                    crate::engine::order::bytes_lt_transitive(a, b, a);
                    crate::engine::order::bytes_lt_irreflexive(a);
                }
            }
        }
    }
    names.insert(k, name);
    proof {
        let w = crate::sql::ast::texts(names@);
        assert(w =~= l.insert(k as int, x));
        assert forall|i: int, j: int| 0 <= i < j < w.len() implies !name_after(
            #[trigger] w[i],
            #[trigger] w[j],
        ) by {
            let a = vstd::utf8::encode_utf8(w[i]);
            let b = vstd::utf8::encode_utf8(w[j]);
            if name_after(w[i], w[j]) {
                if j == k {
                    assert(w[i] == l[i]);
                    if k > 0 {
                        let c = vstd::utf8::encode_utf8(l[k - 1]);
                        if i < k - 1 {
                            assert(!name_after(l[i], l[k - 1]));
                        }
                        crate::engine::order::bytes_lt_total(c, b);
                        crate::engine::order::bytes_lt_total(c, a);
                        if crate::engine::order::bytes_lt(c, b) && i < k - 1 {
                            crate::engine::order::bytes_lt_transitive(c, b, a);
                        }
                    }
                } else if i == k {
                    assert(w[j] == l[j - 1]);
                    assert(name_after(l[j - 1], x));
                    crate::engine::order::bytes_lt_transitive(a, b, a);
                    crate::engine::order::bytes_lt_irreflexive(a);
                } else {
                    let p = if i < k {
                        i
                    } else {
                        i - 1
                    };
                    let q = if j < k {
                        j
                    } else {
                        j - 1
                    };
                    assert(w[i] == l[p] && w[j] == l[q]);
                }
            }
        }
        broadcast use vstd::seq_lib::group_to_multiset_ensures;

        assert(l.insert(k as int, x).to_multiset() =~= l.to_multiset().insert(x));
    }
}

} // verus!
