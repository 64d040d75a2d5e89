//! Tree nodes and how they are laid out in a page.
//!
//! A page starts with a header of 16 bytes: whether the node is a leaf, whether
//! it belongs to a data table, the number of cells, the rightmost child and the
//! left and right neighbours. The offsets of the cells follow. The cells stand
//! at the end of the page, the first cell last; each holds the page of its left
//! child, the lengths of its key and of its record, the key and the record.
use vstd::prelude::*;

use crate::engine::bytes::{
    be16, be16_at, be16_len, be16_round_trip, be32, be32_at, be32_len, be32_round_trip, copy_range, get_be16, get_be32,
    has_at, push_be16, push_be32, zeros,
};
use crate::engine::record::{
    decode_encode_record, decode_record, encode_record, encode_record_len, is_record, record_size,
    record_size_bounds, BTreeValueType,
};
use crate::engine::value::{
    data_size, decode, decode_encode, encode, encode_len, length_fits, starts_value, BTreeDataType,
    DataView,
};

verus! {

/// Number of bytes of a page.
pub const PAGE_SIZE: usize = 4096;

/// Number of bytes of the header of a node.
pub const HEADER_LEN: usize = 16;

/// A cell: a key and a record.
pub type CellView = (DataView, Seq<DataView>);

/// What a node holds.
#[verifier::ext_equal]
pub struct NodeView {
    pub leaf: bool,
    pub data: bool,
    pub left: u32,
    pub right: u32,
    pub kids: Seq<u32>,
    pub cells: Seq<CellView>,
}

/// A node of a tree, read from its page.
#[derive(Debug)]
pub struct BTreeNode {
    pub pgno: u32,
    pub is_leaf: bool,
    pub is_data_table: bool,
    pub left: u32,
    pub right: u32,
    pub children_pgno: Vec<u32>,
    pub cells: Vec<(BTreeDataType, BTreeValueType)>,
}

/// The view of a cell.
pub open spec fn cell_view(c: (BTreeDataType, BTreeValueType)) -> CellView {
    (c.0@, c.1@)
}

/// The views of a sequence of cells.
pub open spec fn cell_views(s: Seq<(BTreeDataType, BTreeValueType)>) -> Seq<CellView> {
    Seq::new(s.len(), |i: int| cell_view(s[i]))
}

impl View for BTreeNode {
    type V = NodeView;

    open spec fn view(&self) -> NodeView {
        NodeView {
            leaf: self.is_leaf,
            data: self.is_data_table,
            left: self.left,
            right: self.right,
            kids: self.children_pgno@,
            cells: cell_views(self.cells@),
        }
    }
}

// -- Layout ----------------------------------------------------

/// Number of bytes of a cell.
pub open spec fn cell_size(c: CellView) -> nat {
    12 + data_size(c.0) + record_size(c.1)
}

/// Number of bytes of cells.
pub open spec fn cells_size(cells: Seq<CellView>) -> nat
    decreases cells.len(),
{
    if cells.len() == 0 {
        0
    } else {
        cells_size(cells.drop_last()) + cell_size(cells.last())
    }
}

/// Number of bytes of a page that a node takes.
pub open spec fn node_size(n: NodeView) -> nat {
    HEADER_LEN as nat + 2 * n.cells.len() + cells_size(n.cells)
}

/// Whether a page holds cells.
pub open spec fn page_holds(cells: Seq<CellView>) -> bool {
    HEADER_LEN as nat + 2 * cells.len() + cells_size(cells) <= PAGE_SIZE
}

/// Whether a node can be written to a page and read back.
pub open spec fn node_fits(n: NodeView) -> bool {
    &&& node_size(n) <= PAGE_SIZE
    &&& n.leaf ==> n.kids.len() == 0
    &&& !n.leaf ==> (n.kids.len() == n.cells.len() || (n.kids.len() == n.cells.len() + 1
        && n.kids.last() != 0))
}

/// The left child that is written in a cell; leaves have none.
pub open spec fn child_of(n: NodeView, i: int) -> u32 {
    if n.leaf {
        0
    } else {
        n.kids[i]
    }
}

/// The bytes of a cell.
pub open spec fn cell_bytes(child: u32, c: CellView) -> Seq<u8> {
    be32(child) + be32(data_size(c.0) as u32) + be32(record_size(c.1) as u32) + encode(c.0)
        + encode_record(c.1)
}

/// The bytes of the first `k` cells, as they stand at the end of the page.
pub open spec fn body(n: NodeView, k: nat) -> Seq<u8>
    decreases k,
{
    if k == 0 {
        seq![]
    } else {
        cell_bytes(child_of(n, k - 1), n.cells[k - 1]) + body(n, (k - 1) as nat)
    }
}

/// Where cell `i` starts in the page.
pub open spec fn cell_start(n: NodeView, i: int) -> int {
    PAGE_SIZE - cells_size(n.cells.take(i + 1))
}

/// The offsets of the first `k` cells.
pub open spec fn refs(n: NodeView, k: nat) -> Seq<u8>
    decreases k,
{
    if k == 0 {
        seq![]
    } else {
        refs(n, (k - 1) as nat) + be16(cell_start(n, k - 1) as u16)
    }
}

/// The child to the right of all cells, or 0.
pub open spec fn last_child(n: NodeView) -> u32 {
    if n.kids.len() > n.cells.len() {
        n.kids.last()
    } else {
        0
    }
}

/// A flag as a byte.
pub open spec fn flag(b: bool) -> u8 {
    if b {
        1
    } else {
        0
    }
}

/// The header of a node.
pub open spec fn header(n: NodeView) -> Seq<u8> {
    seq![flag(n.leaf), flag(n.data)] + be16(n.cells.len() as u16) + be32(last_child(n)) + be32(
        n.left,
    ) + be32(n.right)
}

/// The page of a node.
#[verifier::opaque]
pub open spec fn encode_node(n: NodeView) -> Seq<u8> {
    let k = n.cells.len();
    header(n) + refs(n, k) + Seq::new((PAGE_SIZE - node_size(n)) as nat, |i: int| 0u8) + body(n, k)
}

/// Where the page says that cell `i` starts.
pub open spec fn ref_at(b: Seq<u8>, i: int) -> int {
    be16_at(b, HEADER_LEN + 2 * i) as int
}

/// The length of the key of the cell at `o`.
pub open spec fn key_len_at(b: Seq<u8>, o: int) -> int {
    be32_at(b, o + 4) as int
}

/// The length of the record of the cell at `o`.
pub open spec fn value_len_at(b: Seq<u8>, o: int) -> int {
    be32_at(b, o + 8) as int
}

/// Whether a cell can be read at `o`.
#[verifier::opaque]
pub open spec fn cell_ok(b: Seq<u8>, o: int) -> bool {
    let k = key_len_at(b, o);
    let v = value_len_at(b, o);
    &&& o + 12 <= b.len()
    &&& o + 12 + k + v <= b.len()
    &&& starts_value(b.subrange(o + 12, o + 12 + k))
    &&& is_record(b.subrange(o + 12 + k, o + 12 + k + v))
}

/// The cell at `o`.
#[verifier::opaque]
pub open spec fn cell_at(b: Seq<u8>, o: int) -> CellView {
    let k = key_len_at(b, o);
    let v = value_len_at(b, o);
    (
        decode(b.subrange(o + 12, o + 12 + k)),
        decode_record(b.subrange(o + 12 + k, o + 12 + k + v)),
    )
}

/// Number of cells that a page says it has.
pub open spec fn count_at(b: Seq<u8>) -> nat {
    be16_at(b, 2) as nat
}

/// Whether a node can be read from a page.
pub open spec fn node_ok(b: Seq<u8>) -> bool {
    &&& b.len() >= HEADER_LEN + 2 * count_at(b)
    &&& forall|i: int| 0 <= i < count_at(b) ==> cell_ok(b, #[trigger] ref_at(b, i))
}

/// The left children that the first `k` cells of a page name.
pub open spec fn children_at(b: Seq<u8>) -> Seq<u32> {
    Seq::new(count_at(b), |i: int| be32_at(b, ref_at(b, i)))
}

/// The node that a page holds.
pub open spec fn decode_node(b: Seq<u8>) -> NodeView {
    let leaf = b[0] != 0;
    let last = be32_at(b, 4);
    NodeView {
        leaf,
        data: b[1] != 0,
        left: be32_at(b, 8),
        right: be32_at(b, 12),
        kids: (if leaf {
            seq![]
        } else {
            children_at(b)
        }) + (if last != 0 {
            seq![last]
        } else {
            seq![]
        }),
        cells: Seq::new(count_at(b), |i: int| cell_at(b, ref_at(b, i))),
    }
}

// -- Reading back what was written -----------------------------

/// A prefix of the cells takes no more bytes than all of them.
pub proof fn cells_size_monotonic(cells: Seq<CellView>, i: int)
    requires
        0 <= i <= cells.len(),
    ensures
        cells_size(cells.take(i)) <= cells_size(cells),
        cells_size(cells) >= 12 * cells.len(),
    decreases cells.len(),
{
    if i < cells.len() {
        assert(cells.drop_last().take(i) =~= cells.take(i));
        cells_size_monotonic(cells.drop_last(), i);
    } else {
        assert(cells.take(i) =~= cells);
        if cells.len() > 0 {
            cells_size_monotonic(cells.drop_last(), i - 1);
        }
    }
}

proof fn cells_size_step(cells: Seq<CellView>, i: int)
    requires
        0 <= i < cells.len(),
    ensures
        cells_size(cells.take(i + 1)) == cells_size(cells.take(i)) + cell_size(cells[i]),
{
    assert(cells.take(i + 1).drop_last() =~= cells.take(i));
}

/// The bytes of a cell are as many as its size says.
proof fn cell_bytes_len(child: u32, c: CellView)
    ensures
        cell_bytes(child, c).len() == cell_size(c),
{
    broadcast use {be16_len, be32_len};

    encode_len(c.0);
    encode_record_len(c.1);
}

proof fn body_len(n: NodeView, k: nat)
    requires
        k <= n.cells.len(),
    ensures
        body(n, k).len() == cells_size(n.cells.take(k as int)),
    decreases k,
{
    if k > 0 {
        body_len(n, (k - 1) as nat);
        cell_bytes_len(child_of(n, k - 1), n.cells[k - 1]);
        cells_size_step(n.cells, k - 1);
    } else {
        assert(n.cells.take(0) =~= seq![]);
    }
}

proof fn refs_len(n: NodeView, k: nat)
    ensures
        refs(n, k).len() == 2 * k,
    decreases k,
{
    broadcast use {be16_len, be32_len};

    if k > 0 {
        refs_len(n, (k - 1) as nat);
    }
}

proof fn refs_hold(n: NodeView, k: nat, i: int)
    requires
        0 <= i < k,
    ensures
        has_at(refs(n, k), 2 * i, be16(cell_start(n, i) as u16)),
    decreases k,
{
    broadcast use {be16_len, be32_len};

    refs_len(n, k);
    refs_len(n, (k - 1) as nat);
    if i == k - 1 {
        assert(refs(n, k).subrange(2 * i, 2 * i + 2) =~= be16(cell_start(n, i) as u16));
    } else {
        refs_hold(n, (k - 1) as nat, i);
        let a = refs(n, (k - 1) as nat);
        assert(refs(n, k).subrange(2 * i, 2 * i + 2) =~= a.subrange(2 * i, 2 * i + 2));
    }
}

proof fn body_holds(n: NodeView, k: nat, i: int)
    requires
        0 <= i < k <= n.cells.len(),
    ensures
        has_at(
            body(n, k),
            body(n, k).len() - cells_size(n.cells.take(i + 1)),
            cell_bytes(child_of(n, i), n.cells[i]),
        ),
    decreases k,
{
    body_len(n, k);
    body_len(n, (k - 1) as nat);
    let c = cell_bytes(child_of(n, k - 1), n.cells[k - 1]);
    cell_bytes_len(child_of(n, k - 1), n.cells[k - 1]);
    cells_size_step(n.cells, k - 1);
    if i == k - 1 {
        assert(body(n, k).subrange(0, c.len() as int) =~= c);
    } else {
        body_holds(n, (k - 1) as nat, i);
        cell_bytes_len(child_of(n, i), n.cells[i]);
        let m = cell_size(n.cells[i]) as int;
        let o = body(n, k).len() - cells_size(n.cells.take(i + 1));
        let p = body(n, (k - 1) as nat);
        assert(o - c.len() == p.len() - cells_size(n.cells.take(i + 1)));
        assert(body(n, k).subrange(o, o + m) =~= p.subrange(o - c.len(), o - c.len() + m));
    }
}

/// What stands in a part of a sequence stands in the whole.
proof fn has_at_shift(s: Seq<u8>, part: Seq<u8>, o: int, i: int, x: Seq<u8>)
    requires
        has_at(s, o, part),
        has_at(part, i, x),
    ensures
        has_at(s, o + i, x),
{
    assert(s.subrange(o + i, o + i + x.len()) =~= s.subrange(o, o + part.len()).subrange(
        i,
        i + x.len(),
    ));
}

/// The page of a node is a page long, and its parts stand where they belong.
pub proof fn encode_node_parts(n: NodeView)
    requires
        node_fits(n),
    ensures
        encode_node(n).len() == PAGE_SIZE,
        has_at(encode_node(n), 0, header(n)),
        has_at(encode_node(n), HEADER_LEN as int, refs(n, n.cells.len())),
        has_at(
            encode_node(n),
            PAGE_SIZE - cells_size(n.cells),
            body(n, n.cells.len()),
        ),
{
    broadcast use {be16_len, be32_len};

    let k = n.cells.len();
    assert(n.cells.take(k as int) =~= n.cells);
    body_len(n, k);
    refs_len(n, k);
    reveal(encode_node);
    let e = encode_node(n);
    assert(header(n).len() == 16);
    assert(e.subrange(0, 16) =~= header(n));
    assert(e.subrange(16, (16 + 2 * k) as int) =~= refs(n, k));
    assert(e.subrange(PAGE_SIZE - cells_size(n.cells), PAGE_SIZE as int) =~= body(n, k));
}

proof fn header_fields(n: NodeView, e: Seq<u8>)
    requires
        has_at(e, 0, header(n)),
    ensures
        e[0] == flag(n.leaf),
        e[1] == flag(n.data),
        be16_at(e, 2) == n.cells.len() as u16,
        be32_at(e, 4) == last_child(n),
        be32_at(e, 8) == n.left,
        be32_at(e, 12) == n.right,
{
    broadcast use {be16_len, be32_len};

    let h = header(n);
    assert(e.subrange(0, 16)[0] == h[0]);
    assert(e.subrange(0, 16)[1] == h[1]);
    assert(h.subrange(2, 4) =~= be16(n.cells.len() as u16));
    assert(h.subrange(4, 8) =~= be32(last_child(n)));
    assert(h.subrange(8, 12) =~= be32(n.left));
    assert(h.subrange(12, 16) =~= be32(n.right));
    has_at_shift(e, h, 0, 2, be16(n.cells.len() as u16));
    has_at_shift(e, h, 0, 4, be32(last_child(n)));
    has_at_shift(e, h, 0, 8, be32(n.left));
    has_at_shift(e, h, 0, 12, be32(n.right));
    be16_round_trip(e, 2, n.cells.len() as u16);
    be32_round_trip(e, 4, last_child(n));
    be32_round_trip(e, 8, n.left);
    be32_round_trip(e, 12, n.right);
}

proof fn cell_reads_back(e: Seq<u8>, o: int, child: u32, c: CellView)
    requires
        has_at(e, o, cell_bytes(child, c)),
        cell_size(c) <= PAGE_SIZE,
    ensures
        be32_at(e, o) == child,
        cell_ok(e, o),
        cell_at(e, o) == c,
{
    broadcast use {be16_len, be32_len};

    reveal(cell_ok);
    reveal(cell_at);
    let b = cell_bytes(child, c);
    let k = data_size(c.0);
    let v = record_size(c.1);
    encode_len(c.0);
    encode_record_len(c.1);
    assert(b.subrange(0, 4) =~= be32(child));
    assert(b.subrange(4, 8) =~= be32(k as u32));
    assert(b.subrange(8, 12) =~= be32(v as u32));
    assert(b.subrange(12, (12 + k) as int) =~= encode(c.0));
    assert(b.subrange((12 + k) as int, (12 + k + v) as int) =~= encode_record(c.1));
    has_at_shift(e, b, o, 0, be32(child));
    has_at_shift(e, b, o, 4, be32(k as u32));
    has_at_shift(e, b, o, 8, be32(v as u32));
    has_at_shift(e, b, o, 12, encode(c.0));
    has_at_shift(e, b, o, (12 + k) as int, encode_record(c.1));
    be32_round_trip(e, o, child);
    be32_round_trip(e, o + 4, k as u32);
    be32_round_trip(e, o + 8, v as u32);
    decode_encode(c.0, seq![]);
    assert(encode(c.0) + Seq::<u8>::empty() =~= encode(c.0));
    assert forall|i: int| 0 <= i < c.1.len() implies length_fits(#[trigger] c.1[i]) by {
        record_size_bounds(c.1, i);
    }
    decode_encode_record(c.1);
}

/// Cell `i` of a page is the cell that was written there.
proof fn cell_of_page(n: NodeView, i: int)
    requires
        node_fits(n),
        0 <= i < n.cells.len(),
    ensures
        cell_ok(encode_node(n), ref_at(encode_node(n), i)),
        cell_at(encode_node(n), ref_at(encode_node(n), i)) == n.cells[i],
        be32_at(encode_node(n), ref_at(encode_node(n), i)) == child_of(n, i),
{
    broadcast use {be16_len, be32_len};

    let e = encode_node(n);
    let k = n.cells.len();
    let o = cell_start(n, i);
    encode_node_parts(n);
    cells_size_monotonic(n.cells, k as int);
    cells_size_monotonic(n.cells, i + 1);
    cells_size_step(n.cells, i);
    refs_hold(n, k, i);
    has_at_shift(e, refs(n, k), 16, 2 * i, be16(o as u16));
    be16_round_trip(e, 16 + 2 * i, o as u16);
    body_holds(n, k, i);
    body_len(n, k);
    assert(n.cells.take(k as int) =~= n.cells);
    has_at_shift(
        e,
        body(n, k),
        PAGE_SIZE - cells_size(n.cells),
        cells_size(n.cells) - cells_size(n.cells.take(i + 1)),
        cell_bytes(child_of(n, i), n.cells[i]),
    );
    cell_reads_back(e, o, child_of(n, i), n.cells[i]);
}

/// A node is read back from the page that it was written to.
pub proof fn decode_encode_node(n: NodeView)
    requires
        node_fits(n),
    ensures
        node_ok(encode_node(n)),
        decode_node(encode_node(n)) == n,
{
    let e = encode_node(n);
    let k = n.cells.len();
    encode_node_parts(n);
    header_fields(n, e);
    cells_size_monotonic(n.cells, k as int);
    assert(count_at(e) == k);
    assert forall|i: int| 0 <= i < k implies ({
        &&& cell_ok(e, #[trigger] ref_at(e, i))
        &&& cell_at(e, ref_at(e, i)) == n.cells[i]
        &&& be32_at(e, ref_at(e, i)) == child_of(n, i)
    }) by {
        cell_of_page(n, i);
    }
    let d = decode_node(e);
    assert(d.cells =~= n.cells);
    if n.kids.len() > k {
        assert(n.kids.last() == n.kids[k as int]);
    }
    assert(d.kids =~= n.kids);
    assert(d =~= n);
}

// -- Reading and writing pages ---------------------------------

/// Reads the cell at `o`, if there is one.
fn read_cell(b: &[u8], o: usize) -> (r: Option<(BTreeDataType, BTreeValueType)>)
    requires
        o <= 0xffff,
    ensures
        r is Some <==> cell_ok(b@, o as int),
        r matches Some(c) ==> cell_view(c) == cell_at(b@, o as int),
{
    reveal(cell_ok);
    reveal(cell_at);
    if b.len() < 12 || o > b.len() - 12 {
        return None;
    }
    let k: u64 = get_be32(b, o + 4) as u64;
    let v: u64 = get_be32(b, o + 8) as u64;
    let left: u64 = (b.len() - o - 12) as u64;
    if k + v > left {
        return None;
    }
    let mid: usize = o + 12 + k as usize;
    let end: usize = mid + v as usize;
    let kb = copy_range(b, o + 12, mid);
    let vb = copy_range(b, mid, end);
    if !BTreeDataType::starts(kb.as_slice()) {
        return None;
    }
    match BTreeValueType::read(vb.as_slice()) {
        None => None,
        Some(value) => Some((BTreeDataType::new(kb.as_slice()), value)),
    }
}

impl BTreeNode {
    /// Whether the node is a leaf.
    pub fn is_leaf_node(&self) -> (r: bool)
        ensures
            r == self@.leaf,
    {
        self.is_leaf
    }

    /// The pages of the children.
    pub fn children_pgno(&self) -> (r: &[u32])
        ensures
            r@ == self@.kids,
    {
        self.children_pgno.as_slice()
    }

    /// Reads the node of page `pgno` from the bytes of the page, unless they
    /// are no node.
    pub fn load_page(pgno: u32, data: &[u8]) -> (r: Option<Self>)
        ensures
            r is Some <==> data@.len() >= HEADER_LEN && node_ok(data@),
            r matches Some(n) ==> n@ == decode_node(data@) && n.pgno == pgno,
    {
        if data.len() < HEADER_LEN {
            return None;
        }
        let is_leaf = data[0] != 0;
        let is_data_table = data[1] != 0;
        let count: usize = get_be16(data, 2) as usize;
        let last: u32 = get_be32(data, 4);
        let left: u32 = get_be32(data, 8);
        let right: u32 = get_be32(data, 12);
        if data.len() < HEADER_LEN + 2 * count {
            return None;
        }
        let mut children_pgno: Vec<u32> = Vec::new();
        let mut cells: Vec<(BTreeDataType, BTreeValueType)> = Vec::new();
        let mut i: usize = 0;
        while i < count
            invariant
                i <= count,
                count == count_at(data@),
                data@.len() >= HEADER_LEN + 2 * count,
                cells@.len() == i,
                forall|j: int|
                    0 <= j < i ==> cell_ok(data@, #[trigger] ref_at(data@, j)) && cell_view(
                        cells@[j],
                    ) == cell_at(data@, ref_at(data@, j)),
                is_leaf ==> children_pgno@.len() == 0,
                !is_leaf ==> children_pgno@ == children_at(data@).take(i as int),
            decreases count - i,
        {
            let o: usize = get_be16(data, HEADER_LEN + 2 * i) as usize;
            assert(o == ref_at(data@, i as int));
            let cell = match read_cell(data, o) {
                Some(c) => c,
                None => return None,
            };
            if !is_leaf {
                proof {
                    reveal(cell_ok);
                }
                children_pgno.push(get_be32(data, o));
                assert(children_pgno@ =~= children_at(data@).take(i + 1));
            }
            cells.push(cell);
            i = i + 1;
        }
        if last != 0 {
            children_pgno.push(last);
        }
        let n = BTreeNode { pgno, is_leaf, is_data_table, left, right, children_pgno, cells };
        proof {
            let d = decode_node(data@);
            assert(n@.cells =~= d.cells);
            assert(n@.kids =~= d.kids);
        }
        Some(n)
    }

    /// An empty node for page `pgno`.
    pub fn load_empty_page(pgno: u32, is_leaf: bool, is_data_table: bool) -> (r: Self)
        ensures
            r.pgno == pgno,
            r@ == (NodeView {
                leaf: is_leaf,
                data: is_data_table,
                left: 0,
                right: 0,
                kids: seq![],
                cells: seq![],
            }),
    {
        let n = BTreeNode {
            pgno,
            is_leaf,
            is_data_table,
            left: 0,
            right: 0,
            children_pgno: Vec::new(),
            cells: Vec::new(),
        };
        assert(n@.kids =~= seq![]);
        assert(n@.cells =~= seq![]);
        n
    }

    /// Whether the node can be written to a page.
    pub fn fits(&self) -> (r: bool)
        ensures
            r == node_fits(self@),
    {
        let count: usize = self.cells.len();
        if self.is_leaf {
            if self.children_pgno.len() != 0 {
                return false;
            }
        } else if self.children_pgno.len() != count {
            if self.children_pgno.len() == 0 || self.children_pgno.len() - 1 != count
                || self.children_pgno[self.children_pgno.len() - 1] == 0 {
                return false;
            }
        }
        cells_fit(&self.cells)
    }

    /// The bytes of the page of the node.
    pub fn write_buf(&self) -> (r: Vec<u8>)
        requires
            node_fits(self@),
        ensures
            r@ == encode_node(self@),
            r@.len() == PAGE_SIZE,
    {
        let ghost n = self@;
        let count: usize = self.cells.len();
        proof {
            reveal(encode_node);
            encode_node_parts(n);
            cells_size_monotonic(n.cells, count as int);
            assert(n.cells.take(count as int) =~= n.cells);
        }
        let mut out: Vec<u8> = Vec::new();
        out.push(if self.is_leaf { 1u8 } else { 0u8 });
        out.push(if self.is_data_table { 1u8 } else { 0u8 });
        push_be16(&mut out, count as u16);
        let last: u32 = if self.children_pgno.len() > count {
            self.children_pgno[self.children_pgno.len() - 1]
        } else {
            0
        };
        push_be32(&mut out, last);
        push_be32(&mut out, self.left);
        push_be32(&mut out, self.right);
        assert(out@ =~= header(n));

        let mut start: usize = PAGE_SIZE;
        let mut i: usize = 0;
        assert(n.cells.take(0) =~= seq![]);
        assert(out@ =~= header(n) + refs(n, 0));
        while i < count
            invariant
                i <= count,
                n == self@,
                node_fits(n),
                count == self.cells@.len(),
                start == PAGE_SIZE - cells_size(n.cells.take(i as int)),
                out@ == header(n) + refs(n, i as nat),
            decreases count - i,
        {
            proof {
                cells_size_step(n.cells, i as int);
                cells_size_monotonic(n.cells, i + 1);
            }
            assert(cell_view(self.cells@[i as int]) == n.cells[i as int]);
            let size: usize = 12 + self.cells[i].0.size() + self.cells[i].1.size();
            start = start - size;
            push_be16(&mut out, start as u16);
            i = i + 1;
            assert(out@ =~= header(n) + refs(n, i as nat));
        }
        proof {
            refs_len(n, count as nat);
            broadcast use {be16_len, be32_len};
            assert(header(n).len() == 16);
        }
        assert(out@.len() == 16 + 2 * count);
        let mut gap = zeros(start - (HEADER_LEN + 2 * count));
        out.append(&mut gap);
        let ghost front = out@;

        assert(out@ + body(n, count as nat) =~= encode_node(n));
        assert(i == count);
        while i > 0
            invariant
                i <= count,
                n == self@,
                node_fits(n),
                count == self.cells@.len(),
                encode_node(n) == out@ + body(n, i as nat),
            decreases i,
        {
            i = i - 1;
            let ghost before = out@;
            proof {
                cells_size_step(n.cells, i as int);
                cells_size_monotonic(n.cells, i + 1);
            }
            assert(cell_view(self.cells@[i as int]) == n.cells[i as int]);
            let child: u32 = if self.is_leaf {
                0
            } else {
                self.children_pgno[i]
            };
            push_be32(&mut out, child);
            push_be32(&mut out, self.cells[i].0.size() as u32);
            push_be32(&mut out, self.cells[i].1.size() as u32);
            let mut kb = self.cells[i].0.get_bytes();
            let mut vb = self.cells[i].1.get_bytes();
            out.append(&mut kb);
            out.append(&mut vb);
            assert(out@ =~= before + cell_bytes(child, n.cells[i as int]));
            assert(out@ + body(n, i as nat) =~= before + body(n, (i + 1) as nat));
        }
        assert(body(n, 0) =~= seq![]);
        assert(out@ =~= encode_node(n));
        out
    }
}

/// Whether the cells leave room for the header and the offsets in a page.
pub fn cells_fit(cells: &Vec<(BTreeDataType, BTreeValueType)>) -> (r: bool)
    ensures
        r == page_holds(cell_views(cells@)),
{
    let ghost v = cell_views(cells@);
    let mut room: usize = PAGE_SIZE - HEADER_LEN;
    let mut i: usize = 0;
    assert(v.take(0) =~= seq![]);
    while i < cells.len()
        invariant
            i <= cells@.len(),
            v == cell_views(cells@),
            room == PAGE_SIZE - HEADER_LEN - 2 * i - cells_size(v.take(i as int)),
        decreases cells@.len() - i,
    {
        proof {
            cells_size_step(v, i as int);
            cells_size_monotonic(v, i + 1);
            assert(cell_view(cells@[i as int]) == v[i as int]);
        }
        let k: usize = match cells[i].0.checked_size() {
            Some(n) => n,
            None => return false,
        };
        let n: usize = match cells[i].1.checked_size() {
            Some(n) => n,
            None => return false,
        };
        if k > PAGE_SIZE || n > PAGE_SIZE || room < 14 + k + n {
            return false;
        }
        room = room - (14 + k + n);
        i = i + 1;
    }
    assert(v.take(i as int) =~= v);
    true
}

} // verus!
