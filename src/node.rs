use vstd::prelude::*;

use crate::block_id::{lemma_bytes_round_trip, BlockId, BLOCK_ID_NUM_BYTES};
use crate::error::StoreError;

verus! {

/// Bytes of the node header: format version (2), node kind (1), depth (1),
/// and the size field (4), which counts the leaf's bytes or the inner
/// node's children.
pub const NODE_HEADER_LEN: usize = 8;

/// The node kind byte of a leaf.
pub const LEAF_KIND: u8 = 0;

/// The node kind byte of an inner node.
pub const INNER_KIND: u8 = 1;

/// The most bytes a leaf holds in a block of `block_size` bytes.
pub open spec fn max_leaf_payload(block_size: nat) -> nat {
    (block_size - NODE_HEADER_LEN) as nat
}

/// The most children an inner node has in a block of `block_size` bytes.
pub open spec fn max_fanout(block_size: nat) -> nat {
    ((block_size - NODE_HEADER_LEN) as nat) / (BLOCK_ID_NUM_BYTES as nat)
}

/// What a node block says: a leaf with its bytes, or an inner node with its
/// depth and children.
pub enum NodeView {
    Leaf(Seq<u8>),
    Inner(u8, Seq<BlockId>),
}

/// `n` zero bytes.
pub open spec fn zeros(n: nat) -> Seq<u8> {
    Seq::new(n, |i: int| 0u8)
}

/// The header of a node of kind `kind` and depth `depth` whose size field
/// is `size`.
pub open spec fn node_header(kind: u8, depth: u8, size: u32) -> Seq<u8> {
    seq![0u8, 0u8, kind, depth] + vstd::bytes::spec_u32_to_le_bytes(size)
}

/// The ids written one after another, 16 bytes each.
pub open spec fn ids_bytes(ids: Seq<BlockId>) -> Seq<u8>
    decreases ids.len(),
{
    if ids.len() == 0 {
        Seq::empty()
    } else {
        ids_bytes(ids.drop_last()) + vstd::bytes::spec_u128_to_le_bytes(ids.last().value)
    }
}

/// The block of `block_size` bytes that holds the leaf `data`.
pub open spec fn leaf_layout(block_size: nat, data: Seq<u8>) -> Seq<u8> {
    node_header(LEAF_KIND, 0, data.len() as u32) + data + zeros(
        (block_size - NODE_HEADER_LEN - data.len()) as nat,
    )
}

/// The block of `block_size` bytes that holds the inner node of depth
/// `depth` with children `children`.
pub open spec fn inner_layout(block_size: nat, depth: u8, children: Seq<BlockId>) -> Seq<u8> {
    node_header(INNER_KIND, depth, children.len() as u32) + ids_bytes(children) + zeros(
        (block_size - NODE_HEADER_LEN - BLOCK_ID_NUM_BYTES * children.len()) as nat,
    )
}

/// The id written at byte `start` of `bytes`.
pub open spec fn id_at(bytes: Seq<u8>, start: int) -> BlockId {
    BlockId {
        value: vstd::bytes::spec_u128_from_le_bytes(
            bytes.subrange(start, start + BLOCK_ID_NUM_BYTES),
        ),
    }
}

/// The node that a block of `block_size` bytes holds, or `None` where the
/// block is not a well-formed node: wrong size or format version, a node
/// kind that disagrees with the depth, or a size field out of range.
pub open spec fn decode_node(block_size: nat, bytes: Seq<u8>) -> Option<NodeView> {
    if bytes.len() != block_size || block_size < NODE_HEADER_LEN || bytes[0] != 0 || bytes[1]
        != 0 {
        None
    } else {
        let kind = bytes[2];
        let depth = bytes[3];
        let size = vstd::bytes::spec_u32_from_le_bytes(bytes.subrange(4, 8));
        if kind == LEAF_KIND && depth == 0 && size <= max_leaf_payload(block_size) {
            Some(NodeView::Leaf(bytes.subrange(8, 8 + size)))
        } else if kind == INNER_KIND && depth >= 1 && 1 <= size <= max_fanout(block_size) {
            Some(
                NodeView::Inner(
                    depth,
                    Seq::new(size as nat, |i: int| id_at(bytes, 8 + BLOCK_ID_NUM_BYTES * i)),
                ),
            )
        } else {
            None
        }
    }
}

proof fn lemma_ids_bytes(ids: Seq<BlockId>)
    ensures
        ids_bytes(ids).len() == BLOCK_ID_NUM_BYTES * ids.len(),
        forall|i: int|
            0 <= i < ids.len() ==> #[trigger] ids_bytes(ids).subrange(
                BLOCK_ID_NUM_BYTES * i,
                BLOCK_ID_NUM_BYTES * i + BLOCK_ID_NUM_BYTES,
            ) == vstd::bytes::spec_u128_to_le_bytes(ids[i].value),
    decreases ids.len(),
{
    if ids.len() > 0 {
        let init = ids.drop_last();
        lemma_ids_bytes(init);
        lemma_bytes_round_trip(ids.last());
        let whole = ids_bytes(ids);
        assert forall|i: int| 0 <= i < ids.len() implies #[trigger] whole.subrange(
            BLOCK_ID_NUM_BYTES * i,
            BLOCK_ID_NUM_BYTES * i + BLOCK_ID_NUM_BYTES,
        ) == vstd::bytes::spec_u128_to_le_bytes(ids[i].value) by {
            if i < init.len() {
                assert(whole.subrange(BLOCK_ID_NUM_BYTES * i, BLOCK_ID_NUM_BYTES * i + BLOCK_ID_NUM_BYTES)
                    =~= ids_bytes(init).subrange(
                    BLOCK_ID_NUM_BYTES * i,
                    BLOCK_ID_NUM_BYTES * i + BLOCK_ID_NUM_BYTES,
                ));
            } else {
                assert(whole.subrange(BLOCK_ID_NUM_BYTES * i, BLOCK_ID_NUM_BYTES * i + BLOCK_ID_NUM_BYTES)
                    =~= vstd::bytes::spec_u128_to_le_bytes(ids.last().value));
            }
        }
    }
}

/// Decoding the block that holds a leaf gives that leaf back.
pub proof fn lemma_leaf_round_trip(block_size: nat, data: Seq<u8>)
    requires
        NODE_HEADER_LEN <= block_size <= u32::MAX,
        data.len() <= max_leaf_payload(block_size),
    ensures
        leaf_layout(block_size, data).len() == block_size,
        decode_node(block_size, leaf_layout(block_size, data)) == Some(NodeView::Leaf(data)),
{
    vstd::bytes::lemma_auto_spec_u32_to_from_le_bytes();
    let size = data.len() as u32;
    assert(vstd::bytes::spec_u32_to_le_bytes(size).len() == 4);
    let b = leaf_layout(block_size, data);
    assert(b[0] == 0 && b[1] == 0 && b[2] == LEAF_KIND && b[3] == 0);
    assert(b.subrange(4, 8) =~= vstd::bytes::spec_u32_to_le_bytes(size));
    assert(b.subrange(8, 8 + data.len() as int) =~= data);
}

/// Decoding the block that holds an inner node gives that node back.
pub proof fn lemma_inner_round_trip(block_size: nat, depth: u8, children: Seq<BlockId>)
    requires
        NODE_HEADER_LEN <= block_size <= u32::MAX,
        depth >= 1,
        1 <= children.len() <= max_fanout(block_size),
    ensures
        inner_layout(block_size, depth, children).len() == block_size,
        decode_node(block_size, inner_layout(block_size, depth, children)) == Some(
            NodeView::Inner(depth, children),
        ),
{
    vstd::bytes::lemma_auto_spec_u32_to_from_le_bytes();
    lemma_ids_bytes(children);
    let n = children.len();
    assert(BLOCK_ID_NUM_BYTES * n <= block_size - NODE_HEADER_LEN) by (nonlinear_arith)
        requires
            n <= ((block_size - NODE_HEADER_LEN) as nat) / 16,
            NODE_HEADER_LEN <= block_size,
    ;
    let size = n as u32;
    assert(vstd::bytes::spec_u32_to_le_bytes(size).len() == 4);
    let b = inner_layout(block_size, depth, children);
    assert(b[0] == 0 && b[1] == 0 && b[2] == INNER_KIND && b[3] == depth);
    assert(b.subrange(4, 8) =~= vstd::bytes::spec_u32_to_le_bytes(size));
    let decoded = Seq::new(n, |i: int| id_at(b, 8 + BLOCK_ID_NUM_BYTES * i));
    assert forall|i: int| 0 <= i < n implies decoded[i] == children[i] by {
        assert(BLOCK_ID_NUM_BYTES * i + BLOCK_ID_NUM_BYTES <= BLOCK_ID_NUM_BYTES * n) by (
        nonlinear_arith)
            requires
                0 <= i < n,
        ;
        assert(b.subrange(8 + BLOCK_ID_NUM_BYTES * i, 8 + BLOCK_ID_NUM_BYTES * i + BLOCK_ID_NUM_BYTES)
            =~= ids_bytes(children).subrange(
            BLOCK_ID_NUM_BYTES * i,
            BLOCK_ID_NUM_BYTES * i + BLOCK_ID_NUM_BYTES,
        ));
        lemma_bytes_round_trip(children[i]);
    }
    assert(decoded =~= children);
}

/// The content of a node block, with its bytes.
pub enum NodeContent {
    Leaf(Vec<u8>),
    Inner(u8, Vec<BlockId>),
}

impl View for NodeContent {
    type V = NodeView;

    open spec fn view(&self) -> NodeView {
        match self {
            NodeContent::Leaf(data) => NodeView::Leaf(data@),
            NodeContent::Inner(depth, children) => NodeView::Inner(*depth, children@),
        }
    }
}

pub(crate) fn push_all(out: &mut Vec<u8>, bytes: &[u8])
    ensures
        final(out)@ == old(out)@ + bytes@,
{
    let mut i: usize = 0;
    while i < bytes.len()
        invariant
            i <= bytes@.len(),
            out@ == old(out)@ + bytes@.subrange(0, i as int),
        decreases bytes@.len() - i,
    {
        out.push(bytes[i]);
        i = i + 1;
        assert(out@ =~= old(out)@ + bytes@.subrange(0, i as int));
    }
    assert(bytes@.subrange(0, i as int) =~= bytes@);
}

fn push_zeros(out: &mut Vec<u8>, n: usize)
    ensures
        final(out)@ == old(out)@ + zeros(n as nat),
{
    let mut i: usize = 0;
    while i < n
        invariant
            i <= n,
            out@ == old(out)@ + zeros(i as nat),
        decreases n - i,
    {
        out.push(0u8);
        i = i + 1;
        assert(out@ =~= old(out)@ + zeros(i as nat));
    }
}

fn header_bytes(kind: u8, depth: u8, size: u32) -> (r: Vec<u8>)
    ensures
        r@ == node_header(kind, depth, size),
{
    let mut r: Vec<u8> = vec![0u8, 0u8, kind, depth];
    let size_bytes = vstd::bytes::u32_to_le_bytes(size);
    push_all(&mut r, size_bytes.as_slice());
    assert(r@ =~= node_header(kind, depth, size));
    r
}

/// The block of `block_size` bytes that holds the leaf `data`.
pub fn encode_leaf(block_size: usize, data: &[u8]) -> (r: Vec<u8>)
    requires
        NODE_HEADER_LEN <= block_size <= u32::MAX,
        data@.len() <= max_leaf_payload(block_size as nat),
    ensures
        r@ == leaf_layout(block_size as nat, data@),
        r@.len() == block_size,
{
    let mut r = header_bytes(LEAF_KIND, 0, data.len() as u32);
    push_all(&mut r, data);
    push_zeros(&mut r, block_size - NODE_HEADER_LEN - data.len());
    proof {
        lemma_leaf_round_trip(block_size as nat, data@);
    }
    r
}

/// The block of `block_size` bytes that holds the inner node of depth
/// `depth` with children `children`.
pub fn encode_inner(block_size: usize, depth: u8, children: &[BlockId]) -> (r: Vec<u8>)
    requires
        NODE_HEADER_LEN <= block_size <= u32::MAX,
        depth >= 1,
        1 <= children@.len() <= max_fanout(block_size as nat),
    ensures
        r@ == inner_layout(block_size as nat, depth, children@),
        r@.len() == block_size,
{
    proof {
        lemma_inner_round_trip(block_size as nat, depth, children@);
        lemma_ids_bytes(children@);
    }
    let mut r = header_bytes(INNER_KIND, depth, children.len() as u32);
    let ghost head = r@;
    let mut i: usize = 0;
    while i < children.len()
        invariant
            i <= children@.len(),
            r@ == head + ids_bytes(children@.subrange(0, i as int)),
        decreases children@.len() - i,
    {
        let id_bytes = children[i].to_bytes();
        push_all(&mut r, id_bytes.as_slice());
        assert(children@.subrange(0, i + 1).drop_last() =~= children@.subrange(0, i as int));
        i = i + 1;
    }
    assert(children@.subrange(0, i as int) =~= children@);
    push_zeros(&mut r, block_size - NODE_HEADER_LEN - BLOCK_ID_NUM_BYTES * children.len());
    r
}

/// Reads the node that `bytes`, a block of `block_size` bytes, holds.
/// Fails with a node format error exactly where it holds none.
pub fn decode(block_size: usize, bytes: &[u8]) -> (r: Result<NodeContent, StoreError>)
    ensures
        match decode_node(block_size as nat, bytes@) {
            Some(v) => r matches Ok(n) && n@ == v,
            None => r == Err::<NodeContent, StoreError>(StoreError::NodeFormat),
        },
{
    if bytes.len() != block_size || block_size < NODE_HEADER_LEN || bytes[0] != 0 || bytes[1]
        != 0 {
        return Err(StoreError::NodeFormat);
    }
    let kind = bytes[2];
    let depth = bytes[3];
    let size = vstd::bytes::u32_from_le_bytes(vstd::slice::slice_subrange(bytes, 4, 8));
    let max_payload = block_size - NODE_HEADER_LEN;
    if kind == LEAF_KIND && depth == 0 && size as usize <= max_payload {
        let data = vstd::slice::slice_to_vec(
            vstd::slice::slice_subrange(bytes, 8, 8 + size as usize),
        );
        return Ok(NodeContent::Leaf(data));
    }
    let fanout = max_payload / BLOCK_ID_NUM_BYTES;
    if kind == INNER_KIND && depth >= 1 && 1 <= size && size as usize <= fanout {
        let n = size as usize;
        let mut children: Vec<BlockId> = Vec::new();
        let mut i: usize = 0;
        while i < n
            invariant
                i <= n,
                n <= fanout,
                fanout == (block_size - NODE_HEADER_LEN) / 16,
                bytes@.len() == block_size,
                NODE_HEADER_LEN <= block_size,
                children@ =~= Seq::new(i as nat, |j: int| id_at(bytes@, 8 + BLOCK_ID_NUM_BYTES * j)),
            decreases n - i,
        {
            assert(8 + 16 * i + 16 <= block_size) by (nonlinear_arith)
                requires
                    i < n,
                    n <= (block_size - 8) / 16,
                    8 <= block_size,
            ;
            let start = 8 + BLOCK_ID_NUM_BYTES * i;
            let id = BlockId::from_bytes(
                vstd::slice::slice_subrange(bytes, start, start + BLOCK_ID_NUM_BYTES),
            );
            children.push(id);
            i = i + 1;
        }
        return Ok(NodeContent::Inner(depth, children));
    }
    Err(StoreError::NodeFormat)
}

} // verus!
