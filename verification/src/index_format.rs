//! The binary layout of the index, and reading it in place.
//!
//! All numbers are little-endian. The sections follow each other without gaps:
//! header, cell directory, vectors, labels, original identifiers, tree root
//! directory, keys of the populated trees, tree nodes.
use crate::types::Vec16I;
use vstd::prelude::*;

verus! {

/// "RNH3"
pub const MAGIC: u32 = 0x524E4833;

pub const VERSION: u32 = 4;

pub const N_DIM_TOTAL: u32 = 14;

pub const N_DIM_PADDED: u32 = 16;

pub const N_CELLS: usize = 8192;

pub const TREE_LEAF_SIZE: usize = 128;

/// Marks an absent child or root.
pub const EMPTY_NODE: u32 = u32::MAX;

#[derive(Debug, Clone, Copy)]
pub struct IndexHeader {
    pub magic: u32,
    pub version: u32,
    pub n_vectors: u32,
    pub n_cells_populated: u32,
    pub n_dim_total: u32,
    pub n_dim_padded: u32,
    pub n_cell_dims: u32,
    pub q_scale: u32,
    pub reserved: [u32; 8],
}

/// Where the vectors of a cell are, in units of records.
#[derive(Debug, Clone, Copy)]
pub struct CellEntry {
    pub offset: u32,
    pub count: u32,
}

impl Default for CellEntry {
    fn default() -> (entry: Self)
        ensures
            entry == (CellEntry { offset: 0, count: 0 }),
    {
        CellEntry { offset: 0, count: 0 }
    }
}

/// The root of the tree of a cell and the number of vectors below it.
#[derive(Debug, Clone, Copy)]
pub struct TreeRootEntry {
    pub root: u32,
    pub count: u32,
}

impl Default for TreeRootEntry {
    fn default() -> (entry: Self)
        ensures
            entry == (TreeRootEntry { root: 0, count: 0 }),
    {
        TreeRootEntry { root: 0, count: 0 }
    }
}

/// A node of a tree. A leaf holds the vectors `offset .. offset + count`.
#[derive(Debug, Clone, Copy)]
pub struct TreeNode {
    pub bbox_min: [i16; 16],
    pub bbox_max: [i16; 16],
    pub left: u32,
    pub right: u32,
    pub offset: u32,
    pub count: u32,
    pub min_original_id: u32,
    pub flags: u32,
}

/// What a tree node says, with its box as sequences.
#[verifier::ext_equal]
pub struct NodeModel {
    pub bbox_min: Seq<i16>,
    pub bbox_max: Seq<i16>,
    pub left: u32,
    pub right: u32,
    pub offset: u32,
    pub count: u32,
    pub min_original_id: u32,
    pub flags: u32,
}

impl NodeModel {
    pub open spec fn is_leaf(self) -> bool {
        self.flags % 2 == 1
    }
}

impl View for TreeNode {
    type V = NodeModel;

    open spec fn view(&self) -> NodeModel {
        NodeModel {
            bbox_min: self.bbox_min@,
            bbox_max: self.bbox_max@,
            left: self.left,
            right: self.right,
            offset: self.offset,
            count: self.count,
            min_original_id: self.min_original_id,
            flags: self.flags,
        }
    }
}

impl Default for TreeNode {
    fn default() -> (node: Self)
        ensures
            node.bbox_min@ == Seq::new(16, |i: int| 0i16),
            node.bbox_max@ == Seq::new(16, |i: int| 0i16),
            node.left == EMPTY_NODE,
            node.right == EMPTY_NODE,
            node.offset == 0,
            node.count == 0,
            node.min_original_id == u32::MAX,
            node.flags == 0,
    {
        let node = TreeNode {
            bbox_min: [0i16; 16],
            bbox_max: [0i16; 16],
            left: EMPTY_NODE,
            right: EMPTY_NODE,
            offset: 0,
            count: 0,
            min_original_id: u32::MAX,
            flags: 0,
        };
        assert(node.bbox_min@ =~= Seq::new(16, |i: int| 0i16));
        assert(node.bbox_max@ =~= Seq::new(16, |i: int| 0i16));
        node
    }
}

impl TreeNode {
    pub const LEAF_FLAG: u32 = 1;

    pub fn is_leaf(&self) -> (leaf: bool)
        ensures
            leaf == self@.is_leaf(),
    {
        let flags: u32 = self.flags;
        assert(((flags & 1) != 0) == (flags % 2 == 1)) by (bit_vector);
        (self.flags & Self::LEAF_FLAG) != 0
    }
}

pub open spec fn le_u16(d: Seq<u8>, at: int) -> int {
    d[at] + 256 * d[at + 1]
}

pub open spec fn le_u32(d: Seq<u8>, at: int) -> int {
    d[at] + 256 * d[at + 1] + 65536 * d[at + 2] + 16777216 * d[at + 3]
}

/// Two's complement.
pub open spec fn le_i16(d: Seq<u8>, at: int) -> i16 {
    if le_u16(d, at) < 32768 {
        le_u16(d, at) as i16
    } else {
        (le_u16(d, at) - 65536) as i16
    }
}

pub open spec fn le_vector(d: Seq<u8>, at: int) -> Seq<i16> {
    Seq::new(16, |k: int| le_i16(d, at + 2 * k))
}

pub open spec fn le_cell(d: Seq<u8>, at: int) -> CellEntry {
    CellEntry { offset: le_u32(d, at) as u32, count: le_u32(d, at + 4) as u32 }
}

pub open spec fn le_root(d: Seq<u8>, at: int) -> TreeRootEntry {
    TreeRootEntry { root: le_u32(d, at) as u32, count: le_u32(d, at + 4) as u32 }
}

pub open spec fn le_node(d: Seq<u8>, at: int) -> NodeModel {
    NodeModel {
        bbox_min: le_vector(d, at),
        bbox_max: le_vector(d, at + 32),
        left: le_u32(d, at + 64) as u32,
        right: le_u32(d, at + 68) as u32,
        offset: le_u32(d, at + 72) as u32,
        count: le_u32(d, at + 76) as u32,
        min_original_id: le_u32(d, at + 80) as u32,
        flags: le_u32(d, at + 84) as u32,
    }
}

/// `h` is the header at the start of `d`.
pub open spec fn le_header(d: Seq<u8>, h: IndexHeader) -> bool {
    &&& h.magic == le_u32(d, 0)
    &&& h.version == le_u32(d, 4)
    &&& h.n_vectors == le_u32(d, 8)
    &&& h.n_cells_populated == le_u32(d, 12)
    &&& h.n_dim_total == le_u32(d, 16)
    &&& h.n_dim_padded == le_u32(d, 20)
    &&& h.n_cell_dims == le_u32(d, 24)
    &&& h.q_scale == le_u32(d, 28)
    &&& forall|i: int| 0 <= i < 8 ==> #[trigger] h.reserved@[i] == le_u32(d, 32 + 4 * i)
}

pub open spec fn cells_at() -> int {
    64
}

pub open spec fn vectors_at() -> int {
    cells_at() + 8192 * 8
}

pub open spec fn labels_at(n: int) -> int {
    vectors_at() + 32 * n
}

pub open spec fn ids_at(n: int) -> int {
    labels_at(n) + n
}

pub open spec fn roots_at(n: int) -> int {
    ids_at(n) + 4 * n
}

pub open spec fn keys_at(n: int) -> int {
    roots_at(n) + 8192 * 8
}

pub open spec fn nodes_at(n: int, n_keys: int) -> int {
    keys_at(n) + 4 * n_keys
}

/// Size of an index with `n` vectors, `n_keys` trees and `n_nodes` nodes.
pub open spec fn index_size(n: int, n_keys: int, n_nodes: int) -> int {
    nodes_at(n, n_keys) + 88 * n_nodes
}

/// What an index holds.
#[verifier::ext_equal]
pub struct IndexModel {
    pub cells: Seq<CellEntry>,
    pub vectors: Seq<Seq<i16>>,
    pub labels: Seq<u8>,
    pub ids: Seq<u32>,
    pub roots: Seq<TreeRootEntry>,
    pub keys: Seq<u32>,
    pub nodes: Seq<NodeModel>,
}

/// What the bytes of an index with the given section lengths hold.
pub open spec fn index_model(d: Seq<u8>, n: int, n_keys: int, n_nodes: int) -> IndexModel {
    IndexModel {
        cells: Seq::new(8192, |i: int| le_cell(d, cells_at() + 8 * i)),
        vectors: Seq::new(n as nat, |i: int| le_vector(d, vectors_at() + 32 * i)),
        labels: Seq::new(n as nat, |i: int| d[labels_at(n) + i]),
        ids: Seq::new(n as nat, |i: int| le_u32(d, ids_at(n) + 4 * i) as u32),
        roots: Seq::new(8192, |i: int| le_root(d, roots_at(n) + 8 * i)),
        keys: Seq::new(n_keys as nat, |i: int| le_u32(d, keys_at(n) + 4 * i) as u32),
        nodes: Seq::new(n_nodes as nat, |i: int| le_node(d, nodes_at(n, n_keys) + 88 * i)),
    }
}

/// What the bytes of an index hold.
pub open spec fn model_of(d: Seq<u8>) -> IndexModel {
    index_model(d, le_u32(d, 8), le_u32(d, 36), le_u32(d, 32))
}

/// The cell directory and the vectors are there with their labels and
/// identifiers.
pub open spec fn cell_sections(d: Seq<u8>) -> bool {
    &&& d.len() >= 64
    &&& d.len() >= roots_at(le_u32(d, 8))
}

/// All sections that the header announces are there.
pub open spec fn all_sections(d: Seq<u8>) -> bool {
    &&& d.len() >= 64
    &&& d.len() >= index_size(le_u32(d, 8), le_u32(d, 36), le_u32(d, 32))
}

pub fn read_u32(d: &[u8], at: usize) -> (x: u32)
    requires
        at + 4 <= d@.len(),
    ensures
        x == le_u32(d@, at as int),
{
    d[at] as u32 + 256 * (d[at + 1] as u32) + 65536 * (d[at + 2] as u32) + 16777216 * (d[at
        + 3] as u32)
}

fn read_i16(d: &[u8], at: usize) -> (x: i16)
    requires
        at + 2 <= d@.len(),
    ensures
        x == le_i16(d@, at as int),
{
    let u: i32 = d[at] as i32 + 256 * (d[at + 1] as i32);
    if u < 32768 {
        u as i16
    } else {
        (u - 65536) as i16
    }
}

fn read_vector(d: &[u8], at: usize) -> (v: Vec16I)
    requires
        at + 32 <= d@.len(),
    ensures
        v@ == le_vector(d@, at as int),
{
    assert(d.len() == d@.len());
    let mut v = [0i16; 16];
    let mut k: usize = 0;
    while k < 16
        invariant
            k <= 16,
            at + 32 <= d@.len() <= usize::MAX,
            forall|j: int| 0 <= j < k ==> #[trigger] v@[j] == le_i16(d@, at + 2 * j),
        decreases 16 - k,
    {
        v[k] = read_i16(d, at + 2 * k);
        k = k + 1;
    }
    assert(v@ =~= le_vector(d@, at as int));
    v
}

/// An index read in place.
pub struct IndexView<'a> {
    data: &'a [u8],
}

impl<'a> View for IndexView<'a> {
    type V = IndexModel;

    open spec fn view(&self) -> IndexModel {
        model_of(self.bytes())
    }
}

impl<'a> IndexView<'a> {
    pub closed spec fn bytes(&self) -> Seq<u8> {
        self.data@
    }

    pub open spec fn spec_n_vectors(&self) -> int {
        le_u32(self.bytes(), 8)
    }

    pub open spec fn spec_n_nodes(&self) -> int {
        le_u32(self.bytes(), 32)
    }

    pub open spec fn spec_n_keys(&self) -> int {
        le_u32(self.bytes(), 36)
    }

    /// The cell directory and the vectors are there with their labels and
    /// identifiers.
    pub open spec fn cells_complete(&self) -> bool {
        cell_sections(self.bytes())
    }

    /// All sections that the header announces are there.
    pub open spec fn complete(&self) -> bool {
        all_sections(self.bytes())
    }

    pub fn new(data: &'a [u8]) -> (view: Self)
        ensures
            view.bytes() == data@,
    {
        IndexView { data }
    }

    pub fn header(&self) -> (h: IndexHeader)
        requires
            self.bytes().len() >= 64,
        ensures
            le_header(self.bytes(), h),
    {
        let mut reserved = [0u32; 8];
        let mut i: usize = 0;
        while i < 8
            invariant
                i <= 8,
                self.bytes().len() >= 64,
                forall|j: int|
                    0 <= j < i ==> #[trigger] reserved@[j] == le_u32(self.bytes(), 32 + 4 * j),
            decreases 8 - i,
        {
            reserved[i] = read_u32(self.data, 32 + 4 * i);
            i = i + 1;
        }
        IndexHeader {
            magic: read_u32(self.data, 0),
            version: read_u32(self.data, 4),
            n_vectors: read_u32(self.data, 8),
            n_cells_populated: read_u32(self.data, 12),
            n_dim_total: read_u32(self.data, 16),
            n_dim_padded: read_u32(self.data, 20),
            n_cell_dims: read_u32(self.data, 24),
            q_scale: read_u32(self.data, 28),
            reserved,
        }
    }

    fn cell_dir_offset() -> (at: usize)
        ensures
            at == cells_at(),
    {
        64
    }

    fn vector_slab_offset() -> (at: usize)
        ensures
            at == vectors_at(),
    {
        Self::cell_dir_offset() + 8192 * 8
    }

    fn label_slab_offset(&self) -> (at: usize)
        requires
            self.bytes().len() >= 64,
            labels_at(self.spec_n_vectors()) <= usize::MAX,
        ensures
            at == labels_at(self.spec_n_vectors()),
    {
        Self::vector_slab_offset() + self.n_vectors() as usize * 32
    }

    fn original_id_slab_offset(&self) -> (at: usize)
        requires
            self.bytes().len() >= 64,
            ids_at(self.spec_n_vectors()) <= usize::MAX,
        ensures
            at == ids_at(self.spec_n_vectors()),
    {
        self.label_slab_offset() + self.n_vectors() as usize
    }

    fn tree_root_dir_offset(&self) -> (at: usize)
        requires
            self.bytes().len() >= 64,
            roots_at(self.spec_n_vectors()) <= usize::MAX,
        ensures
            at == roots_at(self.spec_n_vectors()),
    {
        self.original_id_slab_offset() + self.n_vectors() as usize * 4
    }

    fn populated_tree_keys_offset(&self) -> (at: usize)
        requires
            self.bytes().len() >= 64,
            keys_at(self.spec_n_vectors()) <= usize::MAX,
        ensures
            at == keys_at(self.spec_n_vectors()),
    {
        self.tree_root_dir_offset() + N_CELLS * 8
    }

    fn tree_nodes_offset(&self) -> (at: usize)
        requires
            self.bytes().len() >= 64,
            nodes_at(self.spec_n_vectors(), self.spec_n_keys()) <= usize::MAX,
        ensures
            at == nodes_at(self.spec_n_vectors(), self.spec_n_keys()),
    {
        self.populated_tree_keys_offset() + self.n_populated_tree_roots() as usize * 4
    }

    pub fn cell_entry(&self, key: u16) -> (entry: CellEntry)
        requires
            self.bytes().len() >= cells_at() + 8 * key + 8,
        ensures
            entry == le_cell(self.bytes(), cells_at() + 8 * key),
            key < N_CELLS ==> entry == self@.cells[key as int],
    {
        let at: usize = Self::cell_dir_offset() + (key as usize) * 8;
        CellEntry { offset: read_u32(self.data, at), count: read_u32(self.data, at + 4) }
    }

    pub fn vector_at(&self, idx: u32) -> (v: Vec16I)
        requires
            self.bytes().len() >= vectors_at() + 32 * idx + 32,
        ensures
            v@ == le_vector(self.bytes(), vectors_at() + 32 * idx),
            idx < self.spec_n_vectors() ==> v@ == self@.vectors[idx as int],
    {
        assert(self.data.len() == self.data@.len());
        read_vector(self.data, Self::vector_slab_offset() + idx as usize * 32)
    }

    pub fn label_at(&self, idx: u32) -> (label: u8)
        requires
            self.bytes().len() >= 64,
            self.bytes().len() > labels_at(self.spec_n_vectors()) + idx,
        ensures
            label == self.bytes()[labels_at(self.spec_n_vectors()) + idx],
            idx < self.spec_n_vectors() ==> label == self@.labels[idx as int],
    {
        assert(self.data.len() == self.data@.len());
        let at: usize = self.label_slab_offset() + idx as usize;
        self.data[at]
    }

    pub fn original_id_at(&self, idx: u32) -> (id: u32)
        requires
            self.bytes().len() >= 64,
            self.bytes().len() >= ids_at(self.spec_n_vectors()) + 4 * idx + 4,
        ensures
            id == le_u32(self.bytes(), ids_at(self.spec_n_vectors()) + 4 * idx),
            idx < self.spec_n_vectors() ==> id == self@.ids[idx as int],
    {
        assert(self.data.len() == self.data@.len());
        read_u32(self.data, self.original_id_slab_offset() + idx as usize * 4)
    }

    pub fn n_vectors(&self) -> (n: u32)
        requires
            self.bytes().len() >= 64,
        ensures
            n == self.spec_n_vectors(),
    {
        read_u32(self.data, 8)
    }

    pub fn n_tree_nodes(&self) -> (n: u32)
        requires
            self.bytes().len() >= 64,
        ensures
            n == self.spec_n_nodes(),
    {
        read_u32(self.data, 32)
    }

    pub fn n_populated_tree_roots(&self) -> (n: u32)
        requires
            self.bytes().len() >= 64,
        ensures
            n == self.spec_n_keys(),
    {
        read_u32(self.data, 36)
    }

    pub fn tree_leaf_size(&self) -> (n: u32)
        requires
            self.bytes().len() >= 64,
        ensures
            n == le_u32(self.bytes(), 40),
    {
        read_u32(self.data, 40)
    }

    pub fn tree_root_entry(&self, key: u16) -> (entry: TreeRootEntry)
        requires
            self.bytes().len() >= 64,
            self.bytes().len() >= roots_at(self.spec_n_vectors()) + 8 * key + 8,
        ensures
            entry == le_root(self.bytes(), roots_at(self.spec_n_vectors()) + 8 * key),
            key < N_CELLS ==> entry == self@.roots[key as int],
    {
        assert(self.data.len() == self.data@.len());
        let at: usize = self.tree_root_dir_offset() + (key as usize) * 8;
        TreeRootEntry { root: read_u32(self.data, at), count: read_u32(self.data, at + 4) }
    }

    /// What is stored as the key of a populated tree.
    pub(crate) fn stored_tree_key_at(&self, idx: u32) -> (stored: u32)
        requires
            self.bytes().len() >= 64,
            self.bytes().len() >= keys_at(self.spec_n_vectors()) + 4 * idx + 4,
        ensures
            stored == le_u32(self.bytes(), keys_at(self.spec_n_vectors()) + 4 * idx),
            idx < self.spec_n_keys() ==> stored == self@.keys[idx as int],
    {
        assert(self.data.len() == self.data@.len());
        read_u32(self.data, self.populated_tree_keys_offset() + idx as usize * 4)
    }

    /// The key of a populated tree: the low half of what is stored.
    pub fn populated_tree_key_at(&self, idx: u32) -> (key: u16)
        requires
            self.bytes().len() >= 64,
            self.bytes().len() >= keys_at(self.spec_n_vectors()) + 4 * idx + 4,
        ensures
            key == le_u32(self.bytes(), keys_at(self.spec_n_vectors()) + 4 * idx) % 65536,
            idx < self.spec_n_keys() ==> key == self@.keys[idx as int] as int % 65536,
    {
        let stored: u32 = self.stored_tree_key_at(idx);
        assert(stored as u16 == stored % 65536) by (bit_vector);
        stored as u16
    }

    pub fn tree_node(&self, idx: u32) -> (node: TreeNode)
        requires
            self.bytes().len() >= 64,
            self.bytes().len() >= nodes_at(self.spec_n_vectors(), self.spec_n_keys()) + 88 * idx
                + 88,
        ensures
            node@ == le_node(
                self.bytes(),
                nodes_at(self.spec_n_vectors(), self.spec_n_keys()) + 88 * idx,
            ),
            idx < self.spec_n_nodes() ==> node@ == self@.nodes[idx as int],
    {
        assert(self.data.len() == self.data@.len());
        let at: usize = self.tree_nodes_offset() + idx as usize * 88;
        let node = TreeNode {
            bbox_min: read_vector(self.data, at),
            bbox_max: read_vector(self.data, at + 32),
            left: read_u32(self.data, at + 64),
            right: read_u32(self.data, at + 68),
            offset: read_u32(self.data, at + 72),
            count: read_u32(self.data, at + 76),
            min_original_id: read_u32(self.data, at + 80),
            flags: read_u32(self.data, at + 84),
        };
        assert(node@ =~= le_node(self.bytes(), at as int));
        node
    }
}

/// `b` starts with `a`.
pub open spec fn extends(a: Seq<u8>, b: Seq<u8>) -> bool {
    &&& a.len() <= b.len()
    &&& forall|i: int| 0 <= i < a.len() ==> #[trigger] b[i] == a[i]
}

fn push_u32(out: &mut Vec<u8>, x: u32)
    ensures
        extends(old(out)@, final(out)@),
        final(out)@.len() == old(out)@.len() + 4,
        le_u32(final(out)@, old(out)@.len() as int) == x,
{
    out.push((x % 256) as u8);
    out.push((x / 256 % 256) as u8);
    out.push((x / 65536 % 256) as u8);
    out.push((x / 16777216) as u8);
}

fn push_i16(out: &mut Vec<u8>, x: i16)
    ensures
        extends(old(out)@, final(out)@),
        final(out)@.len() == old(out)@.len() + 2,
        le_i16(final(out)@, old(out)@.len() as int) == x,
{
    let u: i32 = if x < 0 {
        x as i32 + 65536
    } else {
        x as i32
    };
    out.push((u % 256) as u8);
    out.push((u / 256) as u8);
}

fn push_vector(out: &mut Vec<u8>, v: &Vec16I)
    ensures
        extends(old(out)@, final(out)@),
        final(out)@.len() == old(out)@.len() + 32,
        le_vector(final(out)@, old(out)@.len() as int) == v@,
{
    let ghost before = out@;
    let mut k: usize = 0;
    while k < 16
        invariant
            k <= 16,
            extends(before, out@),
            out@.len() == before.len() + 2 * k,
            forall|j: int| 0 <= j < k ==> le_i16(out@, before.len() + 2 * j) == #[trigger] v@[j],
        decreases 16 - k,
    {
        let ghost step = out@;
        push_i16(out, v[k]);
        assert forall|j: int| 0 <= j < k + 1 implies le_i16(out@, before.len() + 2 * j)
            == #[trigger] v@[j] by {
            if j < k {
                assert(le_i16(step, before.len() + 2 * j) == v@[j]);
            }
        }
        k = k + 1;
    }
    assert(le_vector(out@, before.len() as int) =~= v@);
}

fn push_cells(out: &mut Vec<u8>, cells: &[CellEntry; 8192])
    ensures
        extends(old(out)@, final(out)@),
        final(out)@.len() == old(out)@.len() + 65536,
        forall|j: int|
            0 <= j < 8192 ==> le_cell(final(out)@, old(out)@.len() + 8 * j) == #[trigger] cells@[j],
{
    let ghost before = out@;
    let mut i: usize = 0;
    while i < 8192
        invariant
            i <= 8192,
            extends(before, out@),
            out@.len() == before.len() + 8 * i,
            forall|j: int|
                0 <= j < i ==> le_cell(out@, before.len() + 8 * j) == #[trigger] cells@[j],
        decreases 8192 - i,
    {
        let ghost step = out@;
        push_u32(out, cells[i].offset);
        let ghost half = out@;
        push_u32(out, cells[i].count);
        assert forall|j: int| 0 <= j < i + 1 implies le_cell(out@, before.len() + 8 * j)
            == #[trigger] cells@[j] by {
            if j < i {
                assert(le_cell(step, before.len() + 8 * j) == cells@[j]);
            } else {
                assert(le_u32(half, step.len() as int) == cells@[j].offset);
            }
        }
        i = i + 1;
    }
}

fn push_roots(out: &mut Vec<u8>, roots: &[TreeRootEntry; 8192])
    ensures
        extends(old(out)@, final(out)@),
        final(out)@.len() == old(out)@.len() + 65536,
        forall|j: int|
            0 <= j < 8192 ==> le_root(final(out)@, old(out)@.len() + 8 * j) == #[trigger] roots@[j],
{
    let ghost before = out@;
    let mut i: usize = 0;
    while i < 8192
        invariant
            i <= 8192,
            extends(before, out@),
            out@.len() == before.len() + 8 * i,
            forall|j: int|
                0 <= j < i ==> le_root(out@, before.len() + 8 * j) == #[trigger] roots@[j],
        decreases 8192 - i,
    {
        let ghost step = out@;
        push_u32(out, roots[i].root);
        let ghost half = out@;
        push_u32(out, roots[i].count);
        assert forall|j: int| 0 <= j < i + 1 implies le_root(out@, before.len() + 8 * j)
            == #[trigger] roots@[j] by {
            if j < i {
                assert(le_root(step, before.len() + 8 * j) == roots@[j]);
            } else {
                assert(le_u32(half, step.len() as int) == roots@[j].root);
            }
        }
        i = i + 1;
    }
}

fn push_u32s(out: &mut Vec<u8>, xs: &[u32])
    ensures
        extends(old(out)@, final(out)@),
        final(out)@.len() == old(out)@.len() + 4 * xs@.len(),
        forall|j: int|
            0 <= j < xs@.len() ==> le_u32(final(out)@, old(out)@.len() + 4 * j)
                == #[trigger] xs@[j],
{
    let ghost before = out@;
    let mut i: usize = 0;
    while i < xs.len()
        invariant
            i <= xs@.len(),
            extends(before, out@),
            out@.len() == before.len() + 4 * i,
            forall|j: int| 0 <= j < i ==> le_u32(out@, before.len() + 4 * j) == #[trigger] xs@[j],
        decreases xs@.len() - i,
    {
        let ghost step = out@;
        push_u32(out, xs[i]);
        assert forall|j: int| 0 <= j < i + 1 implies le_u32(out@, before.len() + 4 * j)
            == #[trigger] xs@[j] by {
            if j < i {
                assert(le_u32(step, before.len() + 4 * j) == xs@[j]);
            }
        }
        i = i + 1;
    }
}

fn push_bytes(out: &mut Vec<u8>, xs: &[u8])
    ensures
        extends(old(out)@, final(out)@),
        final(out)@.len() == old(out)@.len() + xs@.len(),
        forall|j: int|
            0 <= j < xs@.len() ==> final(out)@[old(out)@.len() + j] == #[trigger] xs@[j],
{
    let ghost before = out@;
    let mut i: usize = 0;
    while i < xs.len()
        invariant
            i <= xs@.len(),
            extends(before, out@),
            out@.len() == before.len() + i,
            forall|j: int| 0 <= j < i ==> out@[before.len() + j] == #[trigger] xs@[j],
        decreases xs@.len() - i,
    {
        out.push(xs[i]);
        i = i + 1;
    }
}

fn push_vectors(out: &mut Vec<u8>, vectors: &[Vec16I])
    ensures
        extends(old(out)@, final(out)@),
        final(out)@.len() == old(out)@.len() + 32 * vectors@.len(),
        forall|j: int|
            0 <= j < vectors@.len() ==> le_vector(final(out)@, old(out)@.len() + 32 * j)
                == #[trigger] vectors@[j]@,
{
    let ghost before = out@;
    let mut i: usize = 0;
    while i < vectors.len()
        invariant
            i <= vectors@.len(),
            extends(before, out@),
            out@.len() == before.len() + 32 * i,
            forall|j: int|
                0 <= j < i ==> le_vector(out@, before.len() + 32 * j) == #[trigger] vectors@[j]@,
        decreases vectors@.len() - i,
    {
        let ghost step = out@;
        push_vector(out, &vectors[i]);
        assert forall|j: int| 0 <= j < i + 1 implies le_vector(out@, before.len() + 32 * j)
            == #[trigger] vectors@[j]@ by {
            if j < i {
                lemma_vector_kept(step, out@, before.len() + 32 * j);
            }
        }
        i = i + 1;
    }
}

fn push_node(out: &mut Vec<u8>, node: &TreeNode)
    ensures
        extends(old(out)@, final(out)@),
        final(out)@.len() == old(out)@.len() + 88,
        le_node(final(out)@, old(out)@.len() as int) == node@,
{
    let ghost at = out@.len() as int;
    push_vector(out, &node.bbox_min);
    let ghost d0 = out@;
    push_vector(out, &node.bbox_max);
    let ghost d1 = out@;
    push_u32(out, node.left);
    let ghost d2 = out@;
    push_u32(out, node.right);
    let ghost d3 = out@;
    push_u32(out, node.offset);
    let ghost d4 = out@;
    push_u32(out, node.count);
    let ghost d5 = out@;
    push_u32(out, node.min_original_id);
    let ghost d6 = out@;
    push_u32(out, node.flags);
    proof {
        lemma_vector_kept(d0, out@, at);
        lemma_vector_kept(d1, out@, at + 32);
        assert(le_u32(d2, at + 64) == node.left);
        assert(le_u32(d3, at + 68) == node.right);
        assert(le_u32(d4, at + 72) == node.offset);
        assert(le_u32(d5, at + 76) == node.count);
        assert(le_u32(d6, at + 80) == node.min_original_id);
        assert(le_node(out@, at) =~= node@);
    }
}

fn push_nodes(out: &mut Vec<u8>, nodes: &[TreeNode])
    ensures
        extends(old(out)@, final(out)@),
        final(out)@.len() == old(out)@.len() + 88 * nodes@.len(),
        forall|j: int|
            0 <= j < nodes@.len() ==> le_node(final(out)@, old(out)@.len() + 88 * j)
                == #[trigger] nodes@[j]@,
{
    let ghost before = out@;
    let mut i: usize = 0;
    while i < nodes.len()
        invariant
            i <= nodes@.len(),
            extends(before, out@),
            out@.len() == before.len() + 88 * i,
            forall|j: int|
                0 <= j < i ==> le_node(out@, before.len() + 88 * j) == #[trigger] nodes@[j]@,
        decreases nodes@.len() - i,
    {
        let ghost step = out@;
        push_node(out, &nodes[i]);
        assert forall|j: int| 0 <= j < i + 1 implies le_node(out@, before.len() + 88 * j)
            == #[trigger] nodes@[j]@ by {
            if j < i {
                lemma_node_kept(step, out@, before.len() + 88 * j);
            }
        }
        i = i + 1;
    }
}

proof fn lemma_vector_kept(a: Seq<u8>, b: Seq<u8>, at: int)
    requires
        extends(a, b),
        0 <= at,
        at + 32 <= a.len(),
    ensures
        le_vector(a, at) == le_vector(b, at),
{
    assert forall|k: int| 0 <= k < 16 implies le_i16(a, at + 2 * k) == #[trigger] le_i16(
        b,
        at + 2 * k,
    ) by {
        assert(b[at + 2 * k] == a[at + 2 * k]);
    }
    assert(le_vector(a, at) =~= le_vector(b, at));
}

proof fn lemma_node_kept(a: Seq<u8>, b: Seq<u8>, at: int)
    requires
        extends(a, b),
        0 <= at,
        at + 88 <= a.len(),
    ensures
        le_node(a, at) == le_node(b, at),
{
    lemma_vector_kept(a, b, at);
    lemma_vector_kept(a, b, at + 32);
}

fn push_header(out: &mut Vec<u8>, h: &IndexHeader)
    requires
        old(out)@.len() == 0,
    ensures
        final(out)@.len() == 64,
        le_header(final(out)@, *h),
{
    push_u32(out, h.magic);
    let ghost d0 = out@;
    push_u32(out, h.version);
    let ghost d1 = out@;
    push_u32(out, h.n_vectors);
    let ghost d2 = out@;
    push_u32(out, h.n_cells_populated);
    let ghost d3 = out@;
    push_u32(out, h.n_dim_total);
    let ghost d4 = out@;
    push_u32(out, h.n_dim_padded);
    let ghost d5 = out@;
    push_u32(out, h.n_cell_dims);
    let ghost d6 = out@;
    push_u32(out, h.q_scale);
    let ghost d7 = out@;
    push_u32s(out, h.reserved.as_slice());
    proof {
        assert(le_u32(d0, 0) == h.magic);
        assert(le_u32(d1, 4) == h.version);
        assert(le_u32(d2, 8) == h.n_vectors);
        assert(le_u32(d3, 12) == h.n_cells_populated);
        assert(le_u32(d4, 16) == h.n_dim_total);
        assert(le_u32(d5, 20) == h.n_dim_padded);
        assert(le_u32(d6, 24) == h.n_cell_dims);
        assert(le_u32(d7, 28) == h.q_scale);
    }
}

/// The header of an index.
pub open spec fn header_of(
    h: IndexHeader,
    n_vectors: int,
    n_cells_populated: u32,
    n_keys: int,
    n_nodes: int,
    leaf_size: u32,
) -> bool {
    &&& h.magic == MAGIC
    &&& h.version == VERSION
    &&& h.n_vectors == n_vectors % 0x1_0000_0000
    &&& h.n_cells_populated == n_cells_populated
    &&& h.n_dim_total == N_DIM_TOTAL
    &&& h.n_dim_padded == N_DIM_PADDED
    &&& h.n_cell_dims == 13
    &&& h.q_scale == 10000
    &&& h.reserved@[0] == n_nodes % 0x1_0000_0000
    &&& h.reserved@[1] == n_keys % 0x1_0000_0000
    &&& h.reserved@[2] == leaf_size
    &&& h.reserved@[3] == N_CELLS
    &&& h.reserved@[4] == 0
    &&& h.reserved@[5] == 0
    &&& h.reserved@[6] == 0
    &&& h.reserved@[7] == 0
}

/// The contents of an index, taken apart.
pub open spec fn index_parts(
    vectors: Seq<Vec16I>,
    labels: Seq<u8>,
    original_ids: Seq<u32>,
    cell_dir: Seq<CellEntry>,
    tree_roots: Seq<TreeRootEntry>,
    populated_tree_keys: Seq<u32>,
    tree_nodes: Seq<TreeNode>,
) -> IndexModel {
    IndexModel {
        cells: cell_dir,
        vectors: vectors.map_values(|v: Vec16I| v@),
        labels,
        ids: original_ids,
        roots: tree_roots,
        keys: populated_tree_keys,
        nodes: tree_nodes.map_values(|n: TreeNode| n@),
    }
}

/// `d` is the index with these contents: its size, its header and every section.
pub open spec fn encodes(
    d: Seq<u8>,
    parts: IndexModel,
    n_cells_populated: u32,
    leaf_size: u32,
) -> bool {
    let n = parts.vectors.len() as int;
    let n_keys = parts.keys.len() as int;
    let n_nodes = parts.nodes.len() as int;
    &&& d.len() == index_size(n, n_keys, n_nodes)
    &&& exists|h: IndexHeader| #[trigger]
        le_header(d, h) && header_of(h, n, n_cells_populated, n_keys, n_nodes, leaf_size)
    &&& index_model(d, n, n_keys, n_nodes) == parts
}

fn low_u32(x: usize) -> (low: u32)
    ensures
        low == x as int % 0x1_0000_0000,
{
    let wide: u64 = x as u64;
    assert(wide as u32 == wide % 0x1_0000_0000) by (bit_vector);
    wide as u32
}

/// The bytes of an index. Counts that exceed 32 bits are cut off in the header,
/// as the format has no room for them.
pub fn write_index(
    vectors: &[Vec16I],
    labels: &[u8],
    original_ids: &[u32],
    cell_dir: &[CellEntry; 8192],
    tree_roots: &[TreeRootEntry; 8192],
    populated_tree_keys: &[u32],
    tree_nodes: &[TreeNode],
    n_cells_populated: u32,
    leaf_size: u32,
) -> (out: Vec<u8>)
    requires
        vectors@.len() == labels@.len(),
        vectors@.len() == original_ids@.len(),
    ensures
        encodes(
            out@,
            index_parts(
                vectors@,
                labels@,
                original_ids@,
                cell_dir@,
                tree_roots@,
                populated_tree_keys@,
                tree_nodes@,
            ),
            n_cells_populated,
            leaf_size,
        ),
{
    let header = IndexHeader {
        magic: MAGIC,
        version: VERSION,
        n_vectors: low_u32(vectors.len()),
        n_cells_populated,
        n_dim_total: N_DIM_TOTAL,
        n_dim_padded: N_DIM_PADDED,
        n_cell_dims: 13,
        q_scale: 10000,
        reserved: [
            low_u32(tree_nodes.len()),
            low_u32(populated_tree_keys.len()),
            leaf_size,
            N_CELLS as u32,
            0,
            0,
            0,
            0,
        ],
    };
    let ghost n = vectors@.len() as int;
    let ghost n_keys = populated_tree_keys@.len() as int;
    let ghost n_nodes = tree_nodes@.len() as int;
    let mut out: Vec<u8> = Vec::new();
    push_header(&mut out, &header);
    let ghost d0 = out@;
    push_cells(&mut out, cell_dir);
    let ghost d1 = out@;
    push_vectors(&mut out, vectors);
    let ghost d2 = out@;
    push_bytes(&mut out, labels);
    let ghost d3 = out@;
    push_u32s(&mut out, original_ids);
    let ghost d4 = out@;
    push_roots(&mut out, tree_roots);
    let ghost d5 = out@;
    push_u32s(&mut out, populated_tree_keys);
    let ghost d6 = out@;
    push_nodes(&mut out, tree_nodes);
    proof {
        let d = out@;
        assert(extends(d0, d) && extends(d1, d) && extends(d2, d) && extends(d3, d) && extends(
            d4,
            d,
        ) && extends(d5, d) && extends(d6, d));
        assert(le_header(d, header)) by {
            assert forall|i: int| 0 <= i < 8 implies #[trigger] header.reserved@[i] == le_u32(
                d,
                32 + 4 * i,
            ) by {
                assert(header.reserved@[i] == le_u32(d0, 32 + 4 * i));
            }
        }
        let m = index_model(d, n, n_keys, n_nodes);
        let parts = index_parts(
            vectors@,
            labels@,
            original_ids@,
            cell_dir@,
            tree_roots@,
            populated_tree_keys@,
            tree_nodes@,
        );
        assert forall|i: int| 0 <= i < 8192 implies m.cells[i] == #[trigger] parts.cells[i] by {
            assert(le_cell(d1, d0.len() + 8 * i) == cell_dir@[i]);
        }
        assert(m.cells =~= parts.cells);
        assert forall|i: int| 0 <= i < n implies m.vectors[i] == #[trigger] parts.vectors[i] by {
            assert(le_vector(d2, d1.len() + 32 * i) == vectors@[i]@);
            lemma_vector_kept(d2, d, d1.len() + 32 * i);
        }
        assert(m.vectors =~= parts.vectors);
        assert forall|i: int| 0 <= i < n implies m.labels[i] == #[trigger] parts.labels[i] by {
            assert(d3[d2.len() + i] == labels@[i]);
        }
        assert(m.labels =~= parts.labels);
        assert forall|i: int| 0 <= i < n implies m.ids[i] == #[trigger] parts.ids[i] by {
            assert(le_u32(d4, d3.len() + 4 * i) == original_ids@[i]);
        }
        assert(m.ids =~= parts.ids);
        assert forall|i: int| 0 <= i < 8192 implies m.roots[i] == #[trigger] parts.roots[i] by {
            assert(le_root(d5, d4.len() + 8 * i) == tree_roots@[i]);
        }
        assert(m.roots =~= parts.roots);
        assert forall|i: int| 0 <= i < n_keys implies m.keys[i] == #[trigger] parts.keys[i] by {
            assert(le_u32(d6, d5.len() + 4 * i) == populated_tree_keys@[i]);
        }
        assert(m.keys =~= parts.keys);
        assert forall|i: int| 0 <= i < n_nodes implies m.nodes[i] == #[trigger] parts.nodes[i] by {
            assert(le_node(d, d6.len() + 88 * i) == tree_nodes@[i]@);
        }
        assert(m.nodes =~= parts.nodes);
    }
    out
}

/// The counts in the header of a written index are those of its sections.
pub proof fn lemma_model_of_written(
    d: Seq<u8>,
    parts: IndexModel,
    n_cells_populated: u32,
    leaf_size: u32,
)
    requires
        parts.vectors.len() <= u32::MAX,
        parts.keys.len() <= u32::MAX,
        parts.nodes.len() <= u32::MAX,
        encodes(d, parts, n_cells_populated, leaf_size),
    ensures
        all_sections(d),
        model_of(d) == parts,
        le_u32(d, 4) == VERSION,
        le_u32(d, 8) == parts.vectors.len(),
        le_u32(d, 12) == n_cells_populated,
        le_u32(d, 32) == parts.nodes.len(),
        le_u32(d, 36) == parts.keys.len(),
        le_u32(d, 40) == leaf_size,
        d.len() == index_size(
            parts.vectors.len() as int,
            parts.keys.len() as int,
            parts.nodes.len() as int,
        ),
        le_u32(d, 0) == 0x524E4833,
        le_u32(d, 4) == 4,
        le_u32(d, 16) == 14,
        le_u32(d, 20) == 16,
        le_u32(d, 24) == 13,
        le_u32(d, 28) == 10000,
        le_u32(d, 44) == 8192,
        le_u32(d, 48) == 0,
        le_u32(d, 52) == 0,
        le_u32(d, 56) == 0,
        le_u32(d, 60) == 0,
{
    let h = choose|h: IndexHeader| #[trigger]
        le_header(d, h) && header_of(
            h,
            parts.vectors.len() as int,
            n_cells_populated,
            parts.keys.len() as int,
            parts.nodes.len() as int,
            leaf_size,
        );
    assert(h.reserved@[0] == le_u32(d, 32));
    assert(h.reserved@[1] == le_u32(d, 36));
    assert(h.reserved@[2] == le_u32(d, 40));
    assert(h.reserved@[3] == le_u32(d, 44));
    assert(h.reserved@[4] == le_u32(d, 48));
    assert(h.reserved@[5] == le_u32(d, 52));
    assert(h.reserved@[6] == le_u32(d, 56));
    assert(h.reserved@[7] == le_u32(d, 60));
}

/// Reading an index gives back what was written, as long as its counts fit
/// into the header.
pub proof fn law_read_gives_back_what_was_written(
    view: IndexView,
    parts: IndexModel,
    n_cells_populated: u32,
    leaf_size: u32,
)
    requires
        parts.vectors.len() <= u32::MAX,
        parts.keys.len() <= u32::MAX,
        parts.nodes.len() <= u32::MAX,
        encodes(view.bytes(), parts, n_cells_populated, leaf_size),
    ensures
        view.complete(),
        view@ == parts,
        view.spec_n_vectors() == parts.vectors.len(),
        view.spec_n_keys() == parts.keys.len(),
        view.spec_n_nodes() == parts.nodes.len(),
        le_u32(view.bytes(), 40) == leaf_size,
{
    lemma_model_of_written(view.bytes(), parts, n_cells_populated, leaf_size);
}

/// Where everything is in an index: behind a header of 64 bytes the directory
/// of 8192 cells, then the vectors, the labels, the identifiers, the directory
/// of the 8192 roots, the keys and the nodes, without gaps. The header tells
/// the number of vectors at byte 8, of nodes at byte 32 and of keys at byte
/// 36. Numbers are stored with their lowest byte first.
pub proof fn law_layout(d: Seq<u8>, i: int)
    ensures
        ({
            let m = model_of(d);
            let n = d[8] + 256 * d[9] + 65536 * d[10] + 16777216 * d[11];
            let n_nodes = d[32] + 256 * d[33] + 65536 * d[34] + 16777216 * d[35];
            let n_keys = d[36] + 256 * d[37] + 65536 * d[38] + 16777216 * d[39];
            &&& m.vectors.len() == n && m.labels.len() == n && m.ids.len() == n
            &&& m.cells.len() == 8192 && m.roots.len() == 8192
            &&& m.keys.len() == n_keys && m.nodes.len() == n_nodes
            &&& cell_sections(d) <==> d.len() >= 65600 + 37 * n
            &&& all_sections(d) <==> d.len() >= 131136 + 37 * n + 4 * n_keys + 88 * n_nodes
            &&& 0 <= i < 8192 ==> word_at(d, 64 + 8 * i, m.cells[i].offset as int) && word_at(
                d,
                68 + 8 * i,
                m.cells[i].count as int,
            )
            &&& 0 <= i < n ==> vector_at(d, 65600 + 32 * i, m.vectors[i])
            &&& 0 <= i < n ==> m.labels[i] == d[65600 + 32 * n + i]
            &&& 0 <= i < n ==> word_at(d, 65600 + 33 * n + 4 * i, m.ids[i] as int)
            &&& 0 <= i < 8192 ==> word_at(d, 65600 + 37 * n + 8 * i, m.roots[i].root as int)
                && word_at(d, 65604 + 37 * n + 8 * i, m.roots[i].count as int)
            &&& 0 <= i < n_keys ==> word_at(d, 131136 + 37 * n + 4 * i, m.keys[i] as int)
            &&& 0 <= i < n_nodes ==> {
                let at = 131136 + 37 * n + 4 * n_keys + 88 * i;
                &&& vector_at(d, at, m.nodes[i].bbox_min)
                &&& vector_at(d, at + 32, m.nodes[i].bbox_max)
                &&& word_at(d, at + 64, m.nodes[i].left as int)
                &&& word_at(d, at + 68, m.nodes[i].right as int)
                &&& word_at(d, at + 72, m.nodes[i].offset as int)
                &&& word_at(d, at + 76, m.nodes[i].count as int)
                &&& word_at(d, at + 80, m.nodes[i].min_original_id as int)
                &&& word_at(d, at + 84, m.nodes[i].flags as int)
            }
        }),
{
    let n = le_u32(d, 8);
    let n_keys = le_u32(d, 36);
    lemma_word(d, 64 + 8 * i);
    lemma_word(d, 68 + 8 * i);
    lemma_vector(d, 65600 + 32 * i);
    lemma_word(d, 65600 + 33 * n + 4 * i);
    lemma_word(d, 65600 + 37 * n + 8 * i);
    lemma_word(d, 65604 + 37 * n + 8 * i);
    lemma_word(d, 131136 + 37 * n + 4 * i);
    let at = 131136 + 37 * n + 4 * n_keys + 88 * i;
    lemma_vector(d, at);
    lemma_vector(d, at + 32);
    lemma_word(d, at + 64);
    lemma_word(d, at + 68);
    lemma_word(d, at + 72);
    lemma_word(d, at + 76);
    lemma_word(d, at + 80);
    lemma_word(d, at + 84);
}

proof fn lemma_word(d: Seq<u8>, at: int)
    ensures
        word_at(d, at, le_u32(d, at)),
        0 <= le_u32(d, at) <= u32::MAX,
{
    reveal(word_at);
}

proof fn lemma_vector(d: Seq<u8>, at: int)
    ensures
        vector_at(d, at, le_vector(d, at)),
{
    reveal(vector_at);
    let v = le_vector(d, at);
    assert forall|k: int| 0 <= k < 16 implies {
        let x = #[trigger] v[k];
        d[at + 2 * k] + 256 * d[at + 2 * k + 1] == (if x < 0 {
            x + 65536
        } else {
            x as int
        })
    } by {
        assert(v[k] == le_i16(d, at + 2 * k));
    }
}

/// The four bytes at `at` are those of `x`, the lowest first.
#[verifier::opaque]
pub open spec fn word_at(d: Seq<u8>, at: int, x: int) -> bool {
    &&& x % 256 == d[at]
    &&& (x / 256) % 256 == d[at + 1]
    &&& (x / 65536) % 256 == d[at + 2]
    &&& x / 16777216 == d[at + 3]
}

/// The 32 bytes at `at` are the sixteen components of `v`, each in two bytes,
/// the lower first; a negative one stands for itself and 65536.
#[verifier::opaque]
pub open spec fn vector_at(d: Seq<u8>, at: int, v: Seq<i16>) -> bool {
    &&& v.len() == 16
    &&& forall|k: int|
        0 <= k < 16 ==> {
            let x = #[trigger] v[k];
            d[at + 2 * k] + 256 * d[at + 2 * k + 1] == (if x < 0 {
                x + 65536
            } else {
                x as int
            })
        }
}

/// What a node flag says: the node is a leaf where the flags are odd.
pub proof fn law_leaf_flag(node: NodeModel)
    ensures
        node.is_leaf() <==> node.flags % 2 == 1,
{
}

/// The numbers of the format.
pub proof fn law_format_numbers()
    ensures
        MAGIC == 0x524E4833,
        VERSION == 4,
        N_DIM_TOTAL == 14,
        N_DIM_PADDED == 16,
        N_CELLS == 8192,
        TREE_LEAF_SIZE == 128,
        EMPTY_NODE == 0xFFFF_FFFF,
{
}

/// Where the words of the header are, and that they are read with their lowest
/// byte first.
pub proof fn law_header(d: Seq<u8>, h: IndexHeader, i: int)
    requires
        le_header(d, h),
    ensures
        word_at(d, 0, h.magic as int),
        word_at(d, 4, h.version as int),
        word_at(d, 8, h.n_vectors as int),
        word_at(d, 12, h.n_cells_populated as int),
        word_at(d, 16, h.n_dim_total as int),
        word_at(d, 20, h.n_dim_padded as int),
        word_at(d, 24, h.n_cell_dims as int),
        word_at(d, 28, h.q_scale as int),
        0 <= i < 8 ==> word_at(d, 32 + 4 * i, h.reserved@[i] as int),
{
    lemma_word(d, 0);
    lemma_word(d, 4);
    lemma_word(d, 8);
    lemma_word(d, 12);
    lemma_word(d, 16);
    lemma_word(d, 20);
    lemma_word(d, 24);
    lemma_word(d, 28);
    lemma_word(d, 32 + 4 * i);
    if 0 <= i < 8 {
        assert(h.reserved@[i] == le_u32(d, 32 + 4 * i));
    }
}

/// Four bytes are read as the number that they are the bytes of, and two bytes
/// as a number with a sign.
pub proof fn law_little_endian(d: Seq<u8>, at: int)
    ensures
        word_at(d, at, le_u32(d, at)),
        d[at] + 256 * d[at + 1] < 32768 ==> le_i16(d, at) == d[at] + 256 * d[at + 1],
        d[at] + 256 * d[at + 1] >= 32768 ==> le_i16(d, at) == d[at] + 256 * d[at + 1] - 65536,
{
    lemma_word(d, at);
}

/// What is read of a written index: its header tells the format and the
/// counts, and every section holds what was given, item by item.
pub proof fn law_written_index(
    d: Seq<u8>,
    vectors: Seq<Vec16I>,
    labels: Seq<u8>,
    original_ids: Seq<u32>,
    cell_dir: Seq<CellEntry>,
    tree_roots: Seq<TreeRootEntry>,
    populated_tree_keys: Seq<u32>,
    tree_nodes: Seq<TreeNode>,
    n_cells_populated: u32,
    leaf_size: u32,
    i: int,
)
    requires
        vectors.len() <= u32::MAX,
        populated_tree_keys.len() <= u32::MAX,
        tree_nodes.len() <= u32::MAX,
        encodes(
            d,
            index_parts(
                vectors,
                labels,
                original_ids,
                cell_dir,
                tree_roots,
                populated_tree_keys,
                tree_nodes,
            ),
            n_cells_populated,
            leaf_size,
        ),
    ensures
        d.len() == 131136 + 37 * vectors.len() + 4 * populated_tree_keys.len() + 88
            * tree_nodes.len(),
        word_at(d, 0, 0x524E4833),
        word_at(d, 4, 4),
        word_at(d, 8, vectors.len() as int),
        word_at(d, 12, n_cells_populated as int),
        word_at(d, 16, 14),
        word_at(d, 20, 16),
        word_at(d, 24, 13),
        word_at(d, 28, 10000),
        word_at(d, 32, tree_nodes.len() as int),
        word_at(d, 36, populated_tree_keys.len() as int),
        word_at(d, 40, leaf_size as int),
        word_at(d, 44, 8192),
        model_of(d).cells == cell_dir,
        model_of(d).labels == labels,
        model_of(d).ids == original_ids,
        model_of(d).roots == tree_roots,
        model_of(d).keys == populated_tree_keys,
        model_of(d).vectors.len() == vectors.len(),
        0 <= i < vectors.len() ==> model_of(d).vectors[i] == vectors[i]@,
        model_of(d).nodes.len() == tree_nodes.len(),
        0 <= i < tree_nodes.len() ==> {
            let node = model_of(d).nodes[i];
            &&& node.bbox_min == tree_nodes[i].bbox_min@
            &&& node.bbox_max == tree_nodes[i].bbox_max@
            &&& node.left == tree_nodes[i].left
            &&& node.right == tree_nodes[i].right
            &&& node.offset == tree_nodes[i].offset
            &&& node.count == tree_nodes[i].count
            &&& node.min_original_id == tree_nodes[i].min_original_id
            &&& node.flags == tree_nodes[i].flags
        },
{
    let parts = index_parts(
        vectors,
        labels,
        original_ids,
        cell_dir,
        tree_roots,
        populated_tree_keys,
        tree_nodes,
    );
    lemma_model_of_written(d, parts, n_cells_populated, leaf_size);
    lemma_word(d, 0);
    lemma_word(d, 4);
    lemma_word(d, 8);
    lemma_word(d, 12);
    lemma_word(d, 16);
    lemma_word(d, 20);
    lemma_word(d, 24);
    lemma_word(d, 28);
    lemma_word(d, 32);
    lemma_word(d, 36);
    lemma_word(d, 40);
    lemma_word(d, 44);
}

/// What is read of the header, word by word.
pub proof fn law_header_is_read(
    view: &IndexView<'_>,
    h: IndexHeader,
    n: u32,
    n_nodes: u32,
    n_keys: u32,
    leaf_size: u32,
    i: int,
)
    requires
        view.bytes().len() >= 64,
        call_ensures(IndexView::header, (view,), h),
        call_ensures(IndexView::n_vectors, (view,), n),
        call_ensures(IndexView::n_tree_nodes, (view,), n_nodes),
        call_ensures(IndexView::n_populated_tree_roots, (view,), n_keys),
        call_ensures(IndexView::tree_leaf_size, (view,), leaf_size),
    ensures
        word_at(view.bytes(), 0, h.magic as int),
        word_at(view.bytes(), 4, h.version as int),
        word_at(view.bytes(), 8, n as int) && h.n_vectors == n,
        word_at(view.bytes(), 12, h.n_cells_populated as int),
        word_at(view.bytes(), 32, n_nodes as int) && h.reserved@[0] == n_nodes,
        word_at(view.bytes(), 36, n_keys as int) && h.reserved@[1] == n_keys,
        word_at(view.bytes(), 40, leaf_size as int) && h.reserved@[2] == leaf_size,
        0 <= i < 8 ==> word_at(view.bytes(), 32 + 4 * i, h.reserved@[i] as int),
{
    law_header(view.bytes(), h, i);
    lemma_word(view.bytes(), 32);
    lemma_word(view.bytes(), 36);
    lemma_word(view.bytes(), 40);
    assert(h.reserved@[0] == le_u32(view.bytes(), 32));
    assert(h.reserved@[1] == le_u32(view.bytes(), 36));
    assert(h.reserved@[2] == le_u32(view.bytes(), 40));
}

/// What is read of the sections: each item at its place.
pub proof fn law_sections_are_read(
    view: &IndexView<'_>,
    key: u16,
    idx: u32,
    cell: CellEntry,
    root: TreeRootEntry,
    v: Vec16I,
    label: u8,
    id: u32,
)
    requires
        view.complete(),
        key < 8192,
        idx < view@.vectors.len(),
        call_ensures(IndexView::cell_entry, (view, key), cell),
        call_ensures(IndexView::tree_root_entry, (view, key), root),
        call_ensures(IndexView::vector_at, (view, idx), v),
        call_ensures(IndexView::label_at, (view, idx), label),
        call_ensures(IndexView::original_id_at, (view, idx), id),
    ensures
        cell == view@.cells[key as int],
        root == view@.roots[key as int],
        v@ == view@.vectors[idx as int],
        label == view@.labels[idx as int],
        id == view@.ids[idx as int],
{
}

} // verus!
