//! What the schema says of tables that were made and dropped.
use vstd::prelude::*;

use crate::engine::btree::BTree;
use crate::engine::cursor::rows_by_leaves;
use crate::engine::node::CellView;
use crate::engine::order::{bytes_lt_total, key_lt, key_lt_irreflexive, utf8_injective};
use crate::engine::remove::pruned;
use crate::engine::tree::{
    has_key, key_at_bound, lower_bound, lower_bound_parts, sorted, with_cell, without_key,
};
use crate::engine::value::DataView;
use crate::sql::schema::{
    info_of, infos_of, json_structure, name_after, names_rise, record_round_trip, table_info,
    table_key, table_names_of, table_record, table_taken, SchemaInfoView, SchemaType, TableStructureView,
};

verus! {

/// Whether every row of the schema has the name that it speaks of for its key.
pub open spec fn well_keyed(e: Seq<CellView>) -> bool {
    forall|i: int|
        0 <= i < e.len() ==> (info_of((#[trigger] e[i]).1) matches Some(info) ==> e[i].0
            == table_key(info.name))
}

/// What is said of a table that was made.
pub open spec fn made_info(
    name: Seq<char>,
    root_pgno: u32,
    structure: TableStructureView,
) -> SchemaInfoView {
    SchemaInfoView {
        schema_type: SchemaType::Table,
        name,
        tbl_name: name,
        root_pgno,
        structure_json: json_structure(structure),
    }
}

/// A table that was made is read back with its root page and its columns, and every
/// other table reads as before.
pub proof fn made_table_reads_back(
    e: Seq<CellView>,
    name: Seq<char>,
    root_pgno: u32,
    structure: TableStructureView,
    other: Seq<char>,
)
    requires
        sorted(e),
        !has_key(e, table_key(name)),
    ensures
        ({
            let f = with_cell(e, (table_key(name), table_record(name, root_pgno, structure)));
            table_info(f, other) == if other == name {
                Some(made_info(name, root_pgno, structure))
            } else {
                table_info(e, other)
            }
        }),
{
    let c = (table_key(name), table_record(name, root_pgno, structure));
    record_round_trip(name, root_pgno, structure);
    crate::engine::laws::found_after_insert(e, c, table_key(other));
}

/// A table that was dropped is gone, and every other table reads as before.
pub proof fn dropped_table_is_gone(e: Seq<CellView>, name: Seq<char>, other: Seq<char>)
    requires
        sorted(e),
        has_key(e, table_key(name)),
    ensures
        table_info(without_key(e, table_key(name)), other) == if other == name {
            None
        } else {
            table_info(e, other)
        },
{
    crate::engine::laws::found_after_remove(e, table_key(name), table_key(other));
}

/// Making a table keeps the rows of the schema under their names.
pub proof fn making_keeps_keys(
    e: Seq<CellView>,
    name: Seq<char>,
    root_pgno: u32,
    structure: TableStructureView,
)
    requires
        sorted(e),
        well_keyed(e),
    ensures
        well_keyed(with_cell(e, (table_key(name), table_record(name, root_pgno, structure)))),
{
    let c = (table_key(name), table_record(name, root_pgno, structure));
    let f = with_cell(e, c);
    let n = lower_bound(e, c.0) as int;
    record_round_trip(name, root_pgno, structure);
    lower_bound_parts(e, c.0);
    assert forall|i: int| 0 <= i < f.len() implies (info_of((#[trigger] f[i]).1) matches Some(info)
        ==> f[i].0 == table_key(info.name)) by {
        if i < n {
            assert(f[i] == e[i]);
        } else if i > n {
            assert(f[i] == e[i - 1]);
        }
    }
}

/// Dropping a table keeps the rows of the schema under their names.
pub proof fn dropping_keeps_keys(e: Seq<CellView>, name: Seq<char>)
    requires
        sorted(e),
        well_keyed(e),
        has_key(e, table_key(name)),
    ensures
        well_keyed(without_key(e, table_key(name))),
{
    let f = without_key(e, table_key(name));
    let n = lower_bound(e, table_key(name)) as int;
    key_at_bound(e, table_key(name));
    assert forall|i: int| 0 <= i < f.len() implies (info_of((#[trigger] f[i]).1) matches Some(info)
        ==> f[i].0 == table_key(info.name)) by {
        if i < n {
            assert(f[i] == e[i]);
        } else {
            assert(f[i] == e[i + 1]);
        }
    }
}

/// A name is listed where a row of the schema speaks of a table of that name.
proof fn listed(e: Seq<CellView>, x: Seq<char>)
    ensures
        table_names_of(infos_of(e)).contains(x) <==> exists|i: int|
            0 <= i < e.len() && names_table((#[trigger] e[i]).1, x),
    decreases e.len(),
{
    let l = table_names_of(infos_of(e));
    if e.len() > 0 {
        let d = e.drop_last();
        let k = table_names_of(infos_of(d));
        listed(d, x);
        let here = names_table(e.last().1, x);
        match info_of(e.last().1) {
            Some(info) => {
                let all = infos_of(d).push(info);
                assert(all.drop_last() =~= infos_of(d));
                assert(all.last() == info);
                if info.schema_type == SchemaType::Table {
                    assert(l == k.push(info.name));
                    assert(l[k.len() as int] == info.name);
                    if k.contains(x) {
                        let j = choose|j: int| 0 <= j < k.len() && k[j] == x;
                        assert(l[j] == x);
                    }
                    if l.contains(x) && x != info.name {
                        let j = choose|j: int| 0 <= j < l.len() && l[j] == x;
                        assert(k[j] == x);
                    }
                }
            },
            None => {},
        }
        assert(l.contains(x) <==> k.contains(x) || here);
        if k.contains(x) {
            let i = choose|i: int| 0 <= i < d.len() && names_table((#[trigger] d[i]).1, x);
            assert(e[i] == d[i]);
        }
        if here {
            assert(names_table(e[e.len() - 1].1, x));
        }
        if exists|i: int| 0 <= i < e.len() && names_table((#[trigger] e[i]).1, x) {
            let i = choose|i: int| 0 <= i < e.len() && names_table((#[trigger] e[i]).1, x);
            if i < d.len() {
                assert(d[i] == e[i]);
            }
        }
    }
}

/// Whether a record speaks of a table of a name.
pub open spec fn names_table(v: Seq<DataView>, x: Seq<char>) -> bool {
    info_of(v) matches Some(info) && info.schema_type == SchemaType::Table && info.name == x
}

/// No name of a table occurs twice.
pub proof fn names_occur_once(e: Seq<CellView>)
    requires
        sorted(e),
        well_keyed(e),
    ensures
        table_names_of(infos_of(e)).no_duplicates(),
    decreases e.len(),
{
    broadcast use key_lt_irreflexive;

    if e.len() > 0 {
        let d = e.drop_last();
        assert forall|i: int, j: int| 0 <= i < j < d.len() implies key_lt(
            (#[trigger] d[i]).0,
            (#[trigger] d[j]).0,
        ) by {
            assert(d[i] == e[i] && d[j] == e[j]);
        }
        assert(well_keyed(d)) by {
            assert forall|i: int| 0 <= i < d.len() implies (info_of(
                (#[trigger] d[i]).1,
            ) matches Some(info) ==> d[i].0 == table_key(info.name)) by {
                assert(d[i] == e[i]);
            }
        }
        names_occur_once(d);
        let k = table_names_of(infos_of(d));
        match info_of(e.last().1) {
            Some(info) => {
                let all = infos_of(d).push(info);
                assert(all.drop_last() =~= infos_of(d));
                assert(all.last() == info);
                let z = e.len() - 1;
                assert(e[z] == e.last());
                listed(d, info.name);
                if k.contains(info.name) {
                    let i = choose|i: int|
                        0 <= i < d.len() && names_table((#[trigger] d[i]).1, info.name);
                    assert(e[i] == d[i]);
                    assert(e[i].0 == table_key(info.name));
                    assert(e[z].0 == table_key(info.name));
                    assert(key_lt(e[i].0, e[z].0));
                    assert(false);
                }
                assert forall|i: int, j: int|
                    0 <= i < k.push(info.name).len() && 0 <= j < k.push(info.name).len() && i
                        != j implies k.push(info.name)[i] != k.push(info.name)[j] by {
                    if i == k.len() {
                        assert(k.contains(k[j]));
                    } else if j == k.len() {
                        assert(k.contains(k[i]));
                    }
                }
            },
            None => {},
        }
    }
}

/// A table that was made is listed, and so are all others that were.
pub proof fn made_table_is_listed(
    e: Seq<CellView>,
    name: Seq<char>,
    root_pgno: u32,
    structure: TableStructureView,
    other: Seq<char>,
)
    requires
        sorted(e),
        !has_key(e, table_key(name)),
    ensures
        ({
            let f = with_cell(e, (table_key(name), table_record(name, root_pgno, structure)));
            table_names_of(infos_of(f)).contains(other) <==> other == name || table_names_of(
                infos_of(e),
            ).contains(other)
        }),
{
    let c = (table_key(name), table_record(name, root_pgno, structure));
    let f = with_cell(e, c);
    let n = lower_bound(e, c.0) as int;
    record_round_trip(name, root_pgno, structure);
    lower_bound_parts(e, c.0);
    listed(e, other);
    listed(f, other);
    if other == name {
        assert(names_table(f[n].1, other));
    }
    if exists|i: int| 0 <= i < e.len() && names_table((#[trigger] e[i]).1, other) {
        let i = choose|i: int| 0 <= i < e.len() && names_table((#[trigger] e[i]).1, other);
        if i < n {
            assert(f[i] == e[i]);
        } else {
            assert(f[i + 1] == e[i]);
        }
    }
    if exists|i: int| 0 <= i < f.len() && names_table((#[trigger] f[i]).1, other) {
        let i = choose|i: int| 0 <= i < f.len() && names_table((#[trigger] f[i]).1, other);
        if i < n {
            assert(f[i] == e[i]);
        } else if i > n {
            assert(f[i] == e[i - 1]);
        }
    }
}

/// A table that was dropped is not listed any more, and all others that were still are.
pub proof fn dropped_table_is_not_listed(e: Seq<CellView>, name: Seq<char>, other: Seq<char>)
    requires
        sorted(e),
        well_keyed(e),
        has_key(e, table_key(name)),
    ensures
        table_names_of(infos_of(without_key(e, table_key(name)))).contains(other) <==> other
            != name && table_names_of(infos_of(e)).contains(other),
{
    broadcast use key_lt_irreflexive;

    let f = without_key(e, table_key(name));
    let n = lower_bound(e, table_key(name)) as int;
    key_at_bound(e, table_key(name));
    listed(e, other);
    listed(f, other);
    if exists|i: int| 0 <= i < e.len() && names_table((#[trigger] e[i]).1, other) {
        let i = choose|i: int| 0 <= i < e.len() && names_table((#[trigger] e[i]).1, other);
        assert(e[i].0 == table_key(other));
        if i < n {
            assert(f[i] == e[i]);
        } else if i > n {
            assert(f[i - 1] == e[i]);
        }
    }
    if exists|i: int| 0 <= i < f.len() && names_table((#[trigger] f[i]).1, other) {
        let i = choose|i: int| 0 <= i < f.len() && names_table((#[trigger] f[i]).1, other);
        let j = if i < n {
            i
        } else {
            i + 1
        };
        assert(f[i] == e[j]);
        assert(e[j].0 == table_key(other));
        if j < n {
            assert(key_lt(e[j].0, e[n].0));
        } else {
            assert(key_lt(e[n].0, e[j].0));
        }
    }
}

// -- Dropping a table ------------------------------------------

/// Dropping a table says whether it was there. It is gone then, every other table reads
/// as before, and dropping it once more says that it is not there. Pages must hold their
/// cells when its row is taken out.
pub proof fn drop_says_whether_it_was_there(
    a: &BTree,
    b: &BTree,
    c: &BTree,
    name: Seq<char>,
    first: bool,
    second: bool,
    other: Seq<char>,
)
    requires
        a.is_tree(1),
        a.is_write,
        has_key(a.rows(1), table_key(name)) ==> pruned(
            a.store(),
            1,
            a.height(1),
            table_key(name),
            a.m as nat,
        ) is Some,
        table_taken(a, b, name, first),
        table_taken(b, c, name, second),
    ensures
        first == has_key(a.rows(1), table_key(name)),
        b.is_tree(1),
        !has_key(b.rows(1), table_key(name)),
        other != name ==> has_key(b.rows(1), table_key(other)) == has_key(
            a.rows(1),
            table_key(other),
        ) && table_info(b.rows(1), other) == table_info(a.rows(1), other),
        table_info(b.rows(1), name) is None,
        !second,
        c.rows(1) == b.rows(1),
{
    rows_by_leaves(a, 1);
    if first {
        crate::engine::laws::found_after_remove(a.rows(1), table_key(name), table_key(other));
        crate::engine::laws::found_after_remove(a.rows(1), table_key(name), table_key(name));
    }
}

// -- Names in order --------------------------------------------

/// Names in order with the names of all tables: they rise, none occurs twice, and they
/// are those that the rows of the schema speak of.
pub proof fn names_rise_once(names: Seq<Seq<char>>, e: Seq<CellView>)
    requires
        sorted(e),
        well_keyed(e),
        names_rise(names),
        names.to_multiset() == table_names_of(infos_of(e)).to_multiset(),
    ensures
        names.no_duplicates(),
        forall|i: int, j: int|
            0 <= i < j < names.len() ==> name_after(#[trigger] names[j], #[trigger] names[i]),
        forall|x: Seq<char>| #[trigger]
            names.contains(x) <==> exists|i: int|
                0 <= i < e.len() && names_table((#[trigger] e[i]).1, x),
{
    broadcast use vstd::seq_lib::group_to_multiset_ensures;

    let l = table_names_of(infos_of(e));
    names_occur_once(e);
    l.lemma_multiset_has_no_duplicates();
    assert forall|x: Seq<char>| names.to_multiset().contains(x) implies names.to_multiset().count(
        x,
    ) == 1 by {
        assert(l.to_multiset().count(x) == 1);
    }
    names.lemma_multiset_has_no_duplicates_conv();
    assert forall|i: int, j: int| 0 <= i < j < names.len() implies name_after(
        #[trigger] names[j],
        #[trigger] names[i],
    ) by {
        let a = vstd::utf8::encode_utf8(names[i]);
        let b = vstd::utf8::encode_utf8(names[j]);
        bytes_lt_total(a, b);
        if a == b {
            utf8_injective(names[i], names[j]);
        }
    }
    assert forall|x: Seq<char>| #[trigger] names.contains(x) <==> exists|i: int|
        0 <= i < e.len() && names_table((#[trigger] e[i]).1, x) by {
        listed(e, x);
        assert(names.contains(x) == names.to_multiset().contains(x));
        assert(l.contains(x) == l.to_multiset().contains(x));
    }
}

// -- Tables over time ------------------------------------------

/// A change of the schema.
pub enum SchemaChange {
    Made { name: Seq<char>, root_pgno: u32, structure: TableStructureView },
    Dropped { name: Seq<char> },
}

/// The name that a change is about.
pub open spec fn name_of(c: SchemaChange) -> Seq<char> {
    match c {
        SchemaChange::Made { name, .. } => name,
        SchemaChange::Dropped { name } => name,
    }
}

/// The rows of the schema after changes.
pub open spec fn changed(e: Seq<CellView>, l: Seq<SchemaChange>) -> Seq<CellView>
    decreases l.len(),
{
    if l.len() == 0 {
        e
    } else {
        let f = changed(e, l.drop_last());
        match l.last() {
            SchemaChange::Made { name, root_pgno, structure } => with_cell(
                f,
                (table_key(name), table_record(name, root_pgno, structure)),
            ),
            SchemaChange::Dropped { name } => without_key(f, table_key(name)),
        }
    }
}

/// Whether every table of some changes was made where it was not there, and dropped where
/// it was.
pub open spec fn all_happened(e: Seq<CellView>, l: Seq<SchemaChange>) -> bool
    decreases l.len(),
{
    l.len() > 0 ==> all_happened(e, l.drop_last()) && (has_key(
        changed(e, l.drop_last()),
        table_key(name_of(l.last())),
    ) <==> l.last() is Dropped)
}

/// Whether a table is there after changes of a schema without tables: it was made, and
/// not dropped since.
pub open spec fn made_last(l: Seq<SchemaChange>, x: Seq<char>) -> bool
    decreases l.len(),
{
    if l.len() == 0 {
        false
    } else if name_of(l.last()) == x {
        l.last() is Made
    } else {
        made_last(l.drop_last(), x)
    }
}

/// The tables that are listed are those that were made and not dropped since.
pub proof fn listed_are_made_and_not_dropped(l: Seq<SchemaChange>, x: Seq<char>)
    requires
        all_happened(seq![], l),
    ensures
        sorted(changed(seq![], l)),
        well_keyed(changed(seq![], l)),
        table_names_of(infos_of(changed(seq![], l))).contains(x) <==> made_last(l, x),
        table_names_of(infos_of(changed(seq![], l))).no_duplicates(),
    decreases l.len(),
{
    if l.len() > 0 {
        listed_are_made_and_not_dropped(l.drop_last(), x);
        let f = changed(seq![], l.drop_last());
        match l.last() {
            SchemaChange::Made { name, root_pgno, structure } => {
                let c = (table_key(name), table_record(name, root_pgno, structure));
                crate::engine::tree::with_cell_sorted(f, c);
                making_keeps_keys(f, name, root_pgno, structure);
                made_table_is_listed(f, name, root_pgno, structure, x);
            },
            SchemaChange::Dropped { name } => {
                key_at_bound(f, table_key(name));
                crate::engine::tree::without_key_sorted(
                    f,
                    lower_bound(f, table_key(name)) as int,
                );
                dropping_keeps_keys(f, name);
                dropped_table_is_not_listed(f, name, x);
            },
        }
    }
    names_occur_once(changed(seq![], l));
}

} // verus!
