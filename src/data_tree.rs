use vstd::prelude::*;

use crate::block_id::BlockId;
use crate::block_store::{BlockStore, RemoveResult};
use crate::error::StoreError;
use crate::locking::LockingBlockStore;
use crate::node::{
    decode_node, leaf_layout, lemma_leaf_round_trip, max_fanout, max_leaf_payload, NodeContent,
    NodeView, NODE_HEADER_LEN,
};
use crate::node_store::DataNodeStore;

verus! {

/// `base` to the power `exp`.
pub open spec fn spec_pow(base: nat, exp: nat) -> nat
    decreases exp,
{
    if exp == 0 {
        1
    } else {
        base * spec_pow(base, (exp - 1) as nat)
    }
}

/// `base` to the power `exp`, or `None` where that exceeds `u64::MAX`.
pub fn checked_pow(base: u64, exp: u8) -> (r: Option<u64>)
    ensures
        r matches Some(v) ==> v == spec_pow(base as nat, exp as nat),
        r is None && base >= 1 ==> spec_pow(base as nat, exp as nat) > u64::MAX,
        base >= 1 && spec_pow(base as nat, exp as nat) <= u64::MAX ==> r is Some,
{
    let mut acc: u64 = 1;
    let mut i: u8 = 0;
    while i < exp
        invariant
            i <= exp,
            acc == spec_pow(base as nat, i as nat),
        decreases exp - i,
    {
        match acc.checked_mul(base) {
            Some(v) => {
                assert(v == base * spec_pow(base as nat, i as nat)) by (nonlinear_arith)
                    requires
                        v == acc * base,
                        acc == spec_pow(base as nat, i as nat),
                ;
                acc = v;
            },
            None => {
                proof {
                    if base >= 1 {
                        assert(spec_pow(base as nat, (i + 1) as nat) == base * acc);
                        lemma_pow_mono(base as nat, (i + 1) as nat, exp as nat);
                    }
                }
                return None;
            },
        }
        i = i + 1;
    }
    Some(acc)
}

proof fn lemma_pow_matches(b: nat, e: nat)
    ensures
        spec_pow(b, e) == vstd::arithmetic::power::pow(b as int, e),
    decreases e,
{
    reveal(vstd::arithmetic::power::pow);
    if e > 0 {
        lemma_pow_matches(b, (e - 1) as nat);
    }
}

proof fn lemma_pow_at_least_two_exp(k: nat, e: nat)
    requires
        k >= 2,
    ensures
        spec_pow(k, e) >= spec_pow(2, e),
    decreases e,
{
    if e > 0 {
        lemma_pow_at_least_two_exp(k, (e - 1) as nat);
        let a = spec_pow(k, (e - 1) as nat);
        let b = spec_pow(2, (e - 1) as nat);
        assert(k * a >= 2 * b) by (nonlinear_arith)
            requires
                k >= 2,
                a >= b,
                b >= 0,
        ;
    }
}

/// A power of a base of two or more that fits in 64 bits has an exponent
/// below 64.
proof fn lemma_small_exponent(k: nat, e: nat)
    requires
        k >= 2,
        spec_pow(k, e) <= u64::MAX,
    ensures
        e < 64,
{
    if e >= 64 {
        lemma_pow_at_least_two_exp(k, e);
        lemma_pow_mono(2, 64, e);
        lemma_pow_matches(2, 64);
        vstd::arithmetic::power2::lemma2_to64();
    }
}

proof fn lemma_pow_mono(b: nat, i: nat, e: nat)
    requires
        b >= 1,
        i <= e,
    ensures
        spec_pow(b, i) <= spec_pow(b, e),
    decreases e,
{
    if e > i {
        lemma_pow_mono(b, i, (e - 1) as nat);
        assert(b * spec_pow(b, (e - 1) as nat) >= spec_pow(b, (e - 1) as nat)) by (nonlinear_arith)
            requires
                b >= 1,
        ;
    }
}

fn checked_mul_add(a: u64, b: u64, c: u64) -> (r: Result<u64, StoreError>)
    ensures
        r matches Ok(v) ==> v == a * b + c,
        r is Err ==> r == Err::<u64, StoreError>(StoreError::Overflow),
        a * b + c <= u64::MAX ==> r is Ok,
{
    proof {
        assert(a * b <= a * b + c);
    }
    match a.checked_mul(b) {
        Some(p) => match p.checked_add(c) {
            Some(v) => Ok(v),
            None => Err(StoreError::Overflow),
        },
        None => Err(StoreError::Overflow),
    }
}

/// The number of leaves of a tree holding `num_bytes` bytes, with
/// `leaf_capacity` bytes to a leaf: at least one.
pub open spec fn leaves_for_bytes(num_bytes: nat, leaf_capacity: nat) -> nat {
    if num_bytes == 0 {
        1
    } else {
        ((num_bytes - 1) as nat) / leaf_capacity + 1
    }
}

/// The number of leaves that a tree of `num_bytes` bytes has.
pub fn num_leaves_for_bytes(num_bytes: u64, leaf_capacity: u64) -> (r: u64)
    requires
        leaf_capacity >= 1,
    ensures
        r == leaves_for_bytes(num_bytes as nat, leaf_capacity as nat),
        r >= 1,
{
    if num_bytes == 0 {
        1
    } else {
        let ghost q: int = (num_bytes - 1) as int / leaf_capacity as int;
        assert(q <= num_bytes - 1) by (nonlinear_arith)
            requires
                leaf_capacity >= 1,
                num_bytes >= 1,
                q == (num_bytes - 1) as int / leaf_capacity as int,
        ;
        (num_bytes - 1) / leaf_capacity + 1
    }
}

/// Copies `n` bytes of `src` from `from` on into `dst` from `at` on.
fn copy_into(dst: &mut Vec<u8>, at: usize, src: &[u8], from: usize, n: usize)
    requires
        at + n <= old(dst)@.len(),
        from + n <= src@.len(),
    ensures
        final(dst)@.len() == old(dst)@.len(),
        forall|i: int| 0 <= i < n ==> #[trigger] final(dst)@[at + i] == src@[from + i],
        forall|i: int|
            0 <= i < old(dst)@.len() && !(at <= i < at + n) ==> #[trigger] final(dst)@[i] == old(dst)@[i],
{
    let mut j: usize = 0;
    while j < n
        invariant
            at + n <= dst@.len(),
            from + n <= src@.len(),
            j <= n,
            dst@.len() == old(dst)@.len(),
            forall|i: int| 0 <= i < j ==> #[trigger] dst@[at + i] == src@[from + i],
            forall|i: int|
                0 <= i < old(dst)@.len() && !(at <= i < at + j) ==> #[trigger] dst@[i] == old(dst)@[i],
        decreases n - j,
    {
        let len = dst.len();
        let src_len = src.len();
        assert(at + j < len && from + j < src_len);
        dst.set(at + j, src[from + j]);
        j = j + 1;
    }
}

/// `n` zero bytes.
fn zero_bytes(n: usize) -> (r: Vec<u8>)
    ensures
        r@ == Seq::new(n as nat, |i: int| 0u8),
{
    let mut r: Vec<u8> = Vec::new();
    let mut i: usize = 0;
    while i < n
        invariant
            i <= n,
            r@ == Seq::new(i as nat, |j: int| 0u8),
        decreases n - i,
    {
        r.push(0u8);
        i = i + 1;
        assert(r@ =~= Seq::new(i as nat, |j: int| 0u8));
    }
    r
}

/// The node blocks of a store and their size.
pub type NodesView = (Map<BlockId, Seq<u8>>, nat);

/// The node blocks of `ns` and their size.
pub open spec fn nodes_of<B: BlockStore>(ns: DataNodeStore<B>) -> NodesView {
    (ns.blocks(), ns.spec_node_block_size())
}

/// The node stored under `id`, if it is a well-formed node.
pub open spec fn node_in(v: NodesView, id: BlockId) -> Option<NodeView> {
    if v.0.contains_key(id) {
        decode_node(v.1, v.0[id])
    } else {
        None
    }
}

/// The most children of an inner node.
pub open spec fn fanout_of(v: NodesView) -> nat {
    max_fanout(v.1)
}

/// The most bytes of a leaf.
pub open spec fn leaf_capacity_of(v: NodesView) -> nat {
    max_leaf_payload(v.1)
}

/// The depth of the tree rooted at `root`: that of its root node.
pub open spec fn tree_depth(v: NodesView, root: BlockId) -> nat {
    match node_in(v, root) {
        Some(NodeView::Inner(d, _)) => d as nat,
        _ => 0,
    }
}

/// The leaf reached from the node `id` of depth `depth` by position
/// `index`: at each level, the child numbered by the next digit of `index`
/// to the base of the fanout. `None` where the path leaves the tree.
pub open spec fn descend(
    v: NodesView,
    id: BlockId,
    depth: nat,
    index: nat,
) -> Option<BlockId>
    decreases depth,
{
    if depth == 0 {
        match node_in(v, id) {
            Some(NodeView::Leaf(_)) => Some(id),
            _ => None,
        }
    } else {
        match node_in(v, id) {
            Some(NodeView::Inner(nd, children)) => {
                let per = spec_pow(fanout_of(v), (depth - 1) as nat);
                if nd == depth && per > 0 && index / per < children.len() {
                    descend(v, children[(index / per) as int], (depth - 1) as nat, index % per)
                } else {
                    None
                }
            },
            _ => None,
        }
    }
}

/// Along the rightmost path under the node `id` of depth `depth`: the
/// number of leaves left of the last one, and the byte count of the last.
pub open spec fn spine(v: NodesView, id: BlockId, depth: nat) -> Option<
    (nat, nat),
>
    decreases depth,
{
    if depth == 0 {
        match node_in(v, id) {
            Some(NodeView::Leaf(data)) => Some((0, data.len())),
            _ => None,
        }
    } else {
        match node_in(v, id) {
            Some(NodeView::Inner(nd, children)) => {
                if nd == depth && children.len() > 0 {
                    match spine(v, children.last(), (depth - 1) as nat) {
                        Some((f, l)) => Some(
                            (
                                ((children.len() - 1) as nat) * spec_pow(
                                    fanout_of(v),
                                    (depth - 1) as nat,
                                ) + f,
                                l,
                            ),
                        ),
                        None => None,
                    }
                } else {
                    None
                }
            },
            _ => None,
        }
    }
}

/// `o` with `a` added to its first component.
pub open spec fn add_full(o: Option<(nat, nat)>, a: nat) -> Option<(nat, nat)> {
    match o {
        Some((f, l)) => Some((f + a, l)),
        None => None,
    }
}

/// The number of bytes of the blob held by the tree rooted at `root`.
pub open spec fn tree_num_bytes(v: NodesView, root: BlockId) -> Option<nat> {
    match spine(v, root, tree_depth(v, root)) {
        Some((f, l)) => Some(f * leaf_capacity_of(v) + l),
        None => None,
    }
}

/// The bytes of the leaf at position `i` of the tree rooted at `root`.
pub open spec fn leaf_payload(v: NodesView, root: BlockId, i: nat) -> Seq<
    u8,
> {
    match descend(v, root, tree_depth(v, root), i) {
        Some(id) => match node_in(v, id) {
            Some(NodeView::Leaf(p)) => p,
            _ => Seq::empty(),
        },
        None => Seq::empty(),
    }
}

/// The bytes from `offset` on, at most `size` of them.
pub open spec fn read_range(bytes: Seq<u8>, offset: nat, size: nat) -> Seq<u8> {
    if offset >= bytes.len() {
        Seq::empty()
    } else if offset + size > bytes.len() {
        bytes.subrange(offset as int, bytes.len() as int)
    } else {
        bytes.subrange(offset as int, (offset + size) as int)
    }
}

proof fn lemma_same_leaf(pos: int, t: int, m: int)
    requires
        m > 0,
        pos >= 0,
        0 <= t,
        pos % m + t < m,
    ensures
        (pos + t) / m == pos / m,
        (pos + t) % m == pos % m + t,
{
    vstd::arithmetic::div_mod::lemma_fundamental_div_mod(pos, m);
    vstd::arithmetic::mul::lemma_mul_is_commutative(m, pos / m);
    vstd::arithmetic::div_mod::lemma_fundamental_div_mod_converse(pos + t, m, pos / m, pos % m + t);
}

/// The bytes of the blob held by the tree rooted at `root`: byte `o` is
/// byte `o % m` of leaf `o / m`, where `m` is the leaf capacity.
pub open spec fn blob_bytes(v: NodesView, root: BlockId) -> Seq<u8> {
    match tree_num_bytes(v, root) {
        Some(n) => Seq::new(
            n,
            |o: int|
                leaf_payload(v, root, (o / leaf_capacity_of(v) as int) as nat)[o
                    % leaf_capacity_of(v) as int],
        ),
        None => Seq::empty(),
    }
}

/// The tree rooted at `root` is well formed as a blob: its rightmost path
/// is intact, each position up to that of the last leaf reaches a leaf, no
/// two positions reach the same leaf, every leaf but the last is full, and
/// the last holds the byte count that the rightmost path gives.
pub open spec fn tree_ok(v: NodesView, root: BlockId) -> bool {
    let d = tree_depth(v, root);
    match spine(v, root, d) {
        Some((f, l)) => {
            &&& forall|i: nat| i <= f ==> #[trigger] descend(v, root, d, i) is Some
            &&& forall|i: nat, j: nat|
                i < j <= f ==> #[trigger] descend(v, root, d, i) != #[trigger] descend(
                    v,
                    root,
                    d,
                    j,
                )
            &&& forall|i: nat| i < f ==> #[trigger] leaf_payload(v, root, i).len() == leaf_capacity_of(v)
            &&& leaf_payload(v, root, f).len() == l
        },
        None => false,
    }
}

/// `v` with the leaf `x` holding `p`.
pub open spec fn with_leaf(v: NodesView, x: BlockId, p: Seq<u8>) -> NodesView {
    (v.0.insert(x, leaf_layout(v.1, p)), v.1)
}

proof fn lemma_with_leaf_nodes(v: NodesView, x: BlockId, p: Seq<u8>)
    requires
        NODE_HEADER_LEN <= v.1 <= u32::MAX,
        p.len() <= max_leaf_payload(v.1),
    ensures
        node_in(with_leaf(v, x, p), x) == Some(NodeView::Leaf(p)),
        forall|y: BlockId| y != x ==> #[trigger] node_in(with_leaf(v, x, p), y) == node_in(v, y),
{
    lemma_leaf_round_trip(v.1, p);
}

proof fn lemma_descend_frame(v: NodesView, x: BlockId, p: Seq<u8>, id: BlockId, d: nat, i: nat)
    requires
        NODE_HEADER_LEN <= v.1 <= u32::MAX,
        p.len() <= max_leaf_payload(v.1),
        node_in(v, x) matches Some(NodeView::Leaf(_)),
    ensures
        descend(with_leaf(v, x, p), id, d, i) == descend(v, id, d, i),
    decreases d,
{
    lemma_with_leaf_nodes(v, x, p);
    let w = with_leaf(v, x, p);
    if d > 0 {
        if id != x {
            match node_in(v, id) {
                Some(NodeView::Inner(nd, children)) => {
                    let per = spec_pow(fanout_of(v), (d - 1) as nat);
                    if nd == d && per > 0 && i / per < children.len() {
                        lemma_descend_frame(
                            v,
                            x,
                            p,
                            children[(i / per) as int],
                            (d - 1) as nat,
                            i % per,
                        );
                    }
                },
                _ => {},
            }
        }
    }
}

proof fn lemma_spine_frame(v: NodesView, x: BlockId, p: Seq<u8>, id: BlockId, d: nat)
    requires
        NODE_HEADER_LEN <= v.1 <= u32::MAX,
        p.len() <= max_leaf_payload(v.1),
        node_in(v, x) matches Some(NodeView::Leaf(q)) && q.len() == p.len(),
    ensures
        spine(with_leaf(v, x, p), id, d) == spine(v, id, d),
    decreases d,
{
    lemma_with_leaf_nodes(v, x, p);
    if d > 0 {
        if id != x {
            match node_in(v, id) {
                Some(NodeView::Inner(nd, children)) => {
                    if nd == d && children.len() > 0 {
                        lemma_spine_frame(v, x, p, children.last(), (d - 1) as nat);
                    }
                },
                _ => {},
            }
        }
    }
}

proof fn lemma_position_bound(o: int, f: int, l: int, m: int)
    requires
        m > 0,
        0 <= o < f * m + l,
        0 <= l <= m,
        f >= 0,
    ensures
        0 <= o / m <= f,
{
    vstd::arithmetic::div_mod::lemma_fundamental_div_mod(o, m);
    vstd::arithmetic::div_mod::lemma_div_pos_is_pos(o, m);
    if o / m > f {
        assert(m * (o / m) >= m * (f + 1)) by (nonlinear_arith)
            requires
                o / m >= f + 1,
                m > 0,
        ;
        assert(m * (f + 1) == f * m + m) by (nonlinear_arith);
    }
}

/// Replacing the bytes of the leaf at position `idx` by bytes of the same
/// length keeps the tree well formed and its shape, and changes only the
/// blob bytes held by that leaf.
proof fn lemma_write_leaf_step(
    v: NodesView,
    root: BlockId,
    idx: nat,
    x: BlockId,
    p: Seq<u8>,
    updated: Seq<u8>,
)
    requires
        40 <= v.1 <= u32::MAX,
        tree_ok(v, root),
        descend(v, root, tree_depth(v, root), idx) == Some(x),
        node_in(v, x) == Some(NodeView::Leaf(p)),
        updated.len() == p.len(),
        spine(v, root, tree_depth(v, root)) matches Some((f, _)) && idx <= f,
    ensures
        ({
            let w = with_leaf(v, x, updated);
            let m = leaf_capacity_of(v) as int;
            &&& tree_ok(w, root)
            &&& tree_depth(w, root) == tree_depth(v, root)
            &&& spine(w, root, tree_depth(v, root)) == spine(v, root, tree_depth(v, root))
            &&& forall|i: nat| #[trigger]
                descend(w, root, tree_depth(v, root), i) == descend(v, root, tree_depth(v, root), i)
            &&& blob_bytes(w, root).len() == blob_bytes(v, root).len()
            &&& forall|o: int|
                0 <= o < blob_bytes(v, root).len() ==> #[trigger] blob_bytes(w, root)[o] == if o / m
                    == idx {
                    updated[o % m]
                } else {
                    blob_bytes(v, root)[o]
                }
        }),
{
    let w = with_leaf(v, x, updated);
    let d = tree_depth(v, root);
    let m = leaf_capacity_of(v) as int;
    lemma_with_leaf_nodes(v, x, updated);
    assert(p.len() <= max_leaf_payload(v.1)) by {
        lemma_leaf_round_trip(v.1, p);
    }
    assert(tree_depth(w, root) == d);
    lemma_spine_frame(v, x, updated, root, d);
    assert forall|i: nat| #[trigger] descend(w, root, d, i) == descend(v, root, d, i) by {
        lemma_descend_frame(v, x, updated, root, d, i);
    }
    let (f, l) = spine(v, root, d)->0;
    assert forall|i: nat| i <= f implies #[trigger] leaf_payload(w, root, i) == if i == idx {
        updated
    } else {
        leaf_payload(v, root, i)
    } by {
        assert(descend(w, root, d, i) == descend(v, root, d, i));
        if i != idx {
            if i < idx {
                assert(descend(v, root, d, i) != descend(v, root, d, idx));
            } else {
                assert(descend(v, root, d, idx) != descend(v, root, d, i));
            }
        }
    }
    assert(tree_ok(w, root)) by {
        assert forall|i: nat| i < f implies #[trigger] leaf_payload(w, root, i).len()
            == leaf_capacity_of(w) by {
            assert(leaf_payload(w, root, i) == if i == idx {
                updated
            } else {
                leaf_payload(v, root, i)
            });
        }
        assert(leaf_payload(w, root, f) == if f == idx {
            updated
        } else {
            leaf_payload(v, root, f)
        });
        assert forall|i: nat, j: nat| i < j <= f implies #[trigger] descend(w, root, d, i)
            != #[trigger] descend(w, root, d, j) by {
            assert(descend(w, root, d, i) == descend(v, root, d, i));
            assert(descend(w, root, d, j) == descend(v, root, d, j));
        }
    }
    assert forall|o: int| 0 <= o < blob_bytes(v, root).len() implies #[trigger] blob_bytes(w, root)[o]
        == if o / m == idx {
        updated[o % m]
    } else {
        blob_bytes(v, root)[o]
    } by {
        lemma_position_bound(o, f as int, l as int, m);
        let i = (o / m) as nat;
        assert(leaf_payload(w, root, i) == if i == idx {
            updated
        } else {
            leaf_payload(v, root, i)
        });
    }
}

/// The last leaf along the rightmost path under the node `id` of depth
/// `depth`.
pub open spec fn spine_leaf(v: NodesView, id: BlockId, depth: nat) -> BlockId
    decreases depth,
{
    if depth == 0 {
        id
    } else {
        match node_in(v, id) {
            Some(NodeView::Inner(_, children)) => if children.len() > 0 {
                spine_leaf(v, children.last(), (depth - 1) as nat)
            } else {
                id
            },
            _ => id,
        }
    }
}

/// The number of leaves left of the last one along the rightmost path.
pub open spec fn spine_full(v: NodesView, id: BlockId, depth: nat) -> nat {
    match spine(v, id, depth) {
        Some((f, _)) => f,
        None => 0,
    }
}

/// The byte count of the last leaf along the rightmost path.
pub open spec fn spine_last(v: NodesView, id: BlockId, depth: nat) -> nat {
    match spine(v, id, depth) {
        Some((_, l)) => l,
        None => 0,
    }
}

/// `bytes` cut to `n` bytes, or padded with zero bytes up to `n`.
pub open spec fn resized(bytes: Seq<u8>, n: nat) -> Seq<u8> {
    if n <= bytes.len() {
        bytes.subrange(0, n as int)
    } else {
        bytes + Seq::new((n - bytes.len()) as nat, |i: int| 0u8)
    }
}

proof fn lemma_last_digit(f: int, c: int, per: int, rest: int)
    requires
        per > 0,
        c >= 1,
        rest >= 0,
        f == (c - 1) * per + rest,
        f / per < c,
    ensures
        f / per == c - 1,
        f % per == rest,
{
    vstd::arithmetic::div_mod::lemma_fundamental_div_mod(f, per);
    let q = f / per;
    let r = f % per;
    assert(0 <= r < per) by {
        vstd::arithmetic::div_mod::lemma_mod_pos_bound(f, per);
    }
    if q < c - 1 {
        assert(per * q + r < (c - 1) * per) by (nonlinear_arith)
            requires
                q <= c - 2,
                r < per,
                per > 0,
        ;
    }
    assert(q == c - 1);
    assert(r == rest) by (nonlinear_arith)
        requires
            f == per * q + r,
            f == (c - 1) * per + rest,
            q == c - 1,
    ;
}

/// The position of the last leaf that the rightmost path gives leads,
/// where it leads anywhere, to the leaf at the end of that path.
proof fn lemma_spine_is_last_position(v: NodesView, id: BlockId, d: nat)
    requires
        spine(v, id, d) is Some,
        descend(v, id, d, spine_full(v, id, d)) is Some,
    ensures
        descend(v, id, d, spine_full(v, id, d)) == Some(spine_leaf(v, id, d)),
        node_in(v, spine_leaf(v, id, d)) matches Some(NodeView::Leaf(p)) && p.len() == spine_last(
            v,
            id,
            d,
        ),
    decreases d,
{
    if d > 0 {
        let children = node_in(v, id)->0->Inner_1;
        let per = spec_pow(fanout_of(v), (d - 1) as nat);
        let last = children.last();
        let rest = spine_full(v, last, (d - 1) as nat);
        let f = spine_full(v, id, d);
        lemma_last_digit(f as int, children.len() as int, per as int, rest as int);
        assert(children[(f / per) as int] == last);
        lemma_spine_is_last_position(v, last, (d - 1) as nat);
    }
}

proof fn lemma_spine_frame_last(v: NodesView, x: BlockId, p: Seq<u8>, id: BlockId, d: nat)
    requires
        NODE_HEADER_LEN <= v.1 <= u32::MAX,
        p.len() <= max_leaf_payload(v.1),
        node_in(v, x) matches Some(NodeView::Leaf(_)),
        spine(v, id, d) is Some,
        spine_leaf(v, id, d) == x,
    ensures
        spine(with_leaf(v, x, p), id, d) == Some((spine_full(v, id, d), p.len())),
    decreases d,
{
    lemma_with_leaf_nodes(v, x, p);
    if d > 0 {
        let children = node_in(v, id)->0->Inner_1;
        assert(id != x);
        lemma_spine_frame_last(v, x, p, children.last(), (d - 1) as nat);
    }
}

/// Replacing the bytes of the last leaf keeps the tree well formed: the
/// blob becomes its bytes before that leaf, then the new bytes.
proof fn lemma_set_last_leaf(v: NodesView, root: BlockId, x: BlockId, updated: Seq<u8>)
    requires
        40 <= v.1 <= u32::MAX,
        tree_ok(v, root),
        descend(v, root, tree_depth(v, root), spine_full(v, root, tree_depth(v, root))) == Some(x),
        updated.len() <= max_leaf_payload(v.1),
    ensures
        ({
            let w = with_leaf(v, x, updated);
            let d = tree_depth(v, root);
            let f = spine_full(v, root, d);
            let m = leaf_capacity_of(v);
            &&& tree_ok(w, root)
            &&& tree_depth(w, root) == d
            &&& spine(w, root, d) == Some((f, updated.len()))
            &&& blob_bytes(w, root) == blob_bytes(v, root).subrange(0, (f * m) as int) + updated
            &&& blob_bytes(v, root).len() >= f * m
        }),
{
    let d = tree_depth(v, root);
    let (f, l) = spine(v, root, d)->0;
    let m = leaf_capacity_of(v);
    let w = with_leaf(v, x, updated);
    lemma_spine_is_last_position(v, root, d);
    lemma_with_leaf_nodes(v, x, updated);
    assert(tree_depth(w, root) == d);
    lemma_spine_frame_last(v, x, updated, root, d);
    assert forall|i: nat| #[trigger] descend(w, root, d, i) == descend(v, root, d, i) by {
        lemma_descend_frame(v, x, updated, root, d, i);
    }
    assert forall|i: nat| i <= f implies #[trigger] leaf_payload(w, root, i) == if i == f {
        updated
    } else {
        leaf_payload(v, root, i)
    } by {
        assert(descend(w, root, d, i) == descend(v, root, d, i));
        if i < f {
            assert(descend(v, root, d, i) != descend(v, root, d, f));
        }
    }
    assert(tree_ok(w, root)) by {
        assert forall|i: nat| i < f implies #[trigger] leaf_payload(w, root, i).len()
            == leaf_capacity_of(w) by {
            assert(leaf_payload(w, root, i) == leaf_payload(v, root, i));
        }
        assert(leaf_payload(w, root, f) == updated);
        assert forall|i: nat, j: nat| i < j <= f implies #[trigger] descend(w, root, d, i)
            != #[trigger] descend(w, root, d, j) by {
            assert(descend(w, root, d, i) == descend(v, root, d, i));
            assert(descend(w, root, d, j) == descend(v, root, d, j));
        }
    }
    let old_blob = blob_bytes(v, root);
    let new_blob = blob_bytes(w, root);
    assert(f * m + l >= f * m);
    assert(new_blob.len() == f * m + updated.len());
    assert forall|o: int| 0 <= o < new_blob.len() implies #[trigger] new_blob[o] == (
    old_blob.subrange(0, (f * m) as int) + updated)[o] by {
        vstd::arithmetic::div_mod::lemma_fundamental_div_mod(o, m as int);
        if o < f * m {
            lemma_position_bound(o, f as int, l as int, m as int);
            assert(o / (m as int) < f) by {
                if o / (m as int) >= f {
                    assert((m as int) * (o / (m as int)) >= (m as int) * f) by (nonlinear_arith)
                        requires
                            o / (m as int) >= f,
                            m > 0,
                    ;
                    assert((m as int) * f == f * m) by (nonlinear_arith);
                }
            }
            assert(leaf_payload(w, root, (o / (m as int)) as nat) == leaf_payload(
                v,
                root,
                (o / (m as int)) as nat,
            ));
        } else {
            vstd::arithmetic::div_mod::lemma_fundamental_div_mod_converse(
                o,
                m as int,
                f as int,
                o - f * m,
            );
            assert(leaf_payload(w, root, f) == updated);
        }
    }
    assert(new_blob =~= old_blob.subrange(0, (f * m) as int) + updated);
}

proof fn lemma_blob_ends_with_last_leaf(v: NodesView, root: BlockId)
    requires
        40 <= v.1 <= u32::MAX,
        tree_ok(v, root),
    ensures
        ({
            let d = tree_depth(v, root);
            let f = spine_full(v, root, d);
            let m = leaf_capacity_of(v);
            &&& blob_bytes(v, root).len() == f * m + leaf_payload(v, root, f).len()
            &&& blob_bytes(v, root) == blob_bytes(v, root).subrange(0, (f * m) as int)
                + leaf_payload(v, root, f)
        }),
{
    let d = tree_depth(v, root);
    let (f, l) = spine(v, root, d)->0;
    let m = leaf_capacity_of(v);
    let b = blob_bytes(v, root);
    let last = leaf_payload(v, root, f);
    assert(last.len() <= m) by {
        lemma_spine_is_last_position(v, root, d);
        lemma_leaf_round_trip(v.1, last);
    }
    assert forall|o: int| 0 <= o < b.len() implies #[trigger] b[o] == (b.subrange(
        0,
        (f * m) as int,
    ) + last)[o] by {
        if o >= f * m {
            vstd::arithmetic::div_mod::lemma_fundamental_div_mod_converse(
                o,
                m as int,
                f as int,
                o - f * m,
            );
        }
    }
    assert(b =~= b.subrange(0, (f * m) as int) + last);
}

/// `w` holds every node of `v` unchanged, and has the same block size.
pub open spec fn keeps(v: NodesView, w: NodesView) -> bool {
    &&& w.1 == v.1
    &&& forall|y: BlockId| #[trigger]
        v.0.contains_key(y) ==> w.0.contains_key(y) && w.0[y] == v.0[y]
}

/// `w` holds every node of `v` unchanged but possibly `n`, and has the same
/// block size.
pub open spec fn agrees_except(v: NodesView, w: NodesView, n: BlockId) -> bool {
    &&& w.1 == v.1
    &&& forall|y: BlockId| #[trigger]
        v.0.contains_key(y) && y != n ==> w.0.contains_key(y) && w.0[y] == v.0[y]
}

/// In `w`, the node `n` is as in `v`, or an inner node of `v` whose
/// children gained more at the end.
pub open spec fn extends_children(v: NodesView, w: NodesView, n: BlockId) -> bool {
    match node_in(v, n) {
        Some(NodeView::Inner(dn, c)) => match node_in(w, n) {
            Some(NodeView::Inner(dn2, c2)) => dn2 == dn && c2.len() >= c.len() && c2.subrange(
                0,
                c.len() as int,
            ) == c,
            _ => false,
        },
        Some(NodeView::Leaf(_)) => node_in(w, n) == node_in(v, n),
        None => true,
    }
}

proof fn lemma_pow_positive(k: nat, e: nat)
    requires
        k >= 1,
    ensures
        spec_pow(k, e) >= 1,
    decreases e,
{
    if e > 0 {
        lemma_pow_positive(k, (e - 1) as nat);
        assert(k * spec_pow(k, (e - 1) as nat) >= 1) by (nonlinear_arith)
            requires
                k >= 1,
                spec_pow(k, (e - 1) as nat) >= 1,
        ;
    }
}

/// A path that reaches a leaf ends at a node that is a leaf, and its
/// position is below the capacity of the subtree.
proof fn lemma_descend_reaches_leaf(v: NodesView, id: BlockId, d: nat, i: nat)
    requires
        descend(v, id, d, i) is Some,
        fanout_of(v) >= 1,
    ensures
        node_in(v, descend(v, id, d, i)->0) matches Some(NodeView::Leaf(_)),
        v.0.contains_key(descend(v, id, d, i)->0),
        i < spec_pow(fanout_of(v), d) || d == 0,
    decreases d,
{
    if d > 0 {
        let children = node_in(v, id)->0->Inner_1;
        let per = spec_pow(fanout_of(v), (d - 1) as nat);
        lemma_descend_reaches_leaf(v, children[(i / per) as int], (d - 1) as nat, i % per);
        assert(children.len() <= fanout_of(v));
        let q = i / per;
        let r = i % per;
        vstd::arithmetic::div_mod::lemma_fundamental_div_mod(i as int, per as int);
        if d > 1 {
            assert(r < per);
        } else {
            assert(per == 1);
            assert(r == 0);
        }
        assert(i < fanout_of(v) * per) by (nonlinear_arith)
            requires
                i == per * q + r,
                q < children.len(),
                children.len() <= fanout_of(v),
                r < per,
        ;
    }
}

proof fn lemma_descend_grow(v: NodesView, w: NodesView, n: BlockId, id: BlockId, d: nat, i: nat)
    requires
        agrees_except(v, w, n),
        extends_children(v, w, n),
        descend(v, id, d, i) is Some,
    ensures
        descend(w, id, d, i) == descend(v, id, d, i),
    decreases d,
{
    if id != n {
        assert(v.0.contains_key(id));
        assert(node_in(w, id) == node_in(v, id));
    }
    if d > 0 {
        let children = node_in(v, id)->0->Inner_1;
        let per = spec_pow(fanout_of(v), (d - 1) as nat);
        if id == n {
            let c2 = node_in(w, id)->0->Inner_1;
            assert(c2.subrange(0, children.len() as int)[(i / per) as int] == c2[(i / per) as int]);
        }
        lemma_descend_grow(v, w, n, children[(i / per) as int], (d - 1) as nat, i % per);
    }
}

/// Paths below depth `dn` never pass the inner node `n` of depth `dn`, so
/// changing it leaves them as they are.
proof fn lemma_descend_below(v: NodesView, w: NodesView, n: BlockId, id: BlockId, d: nat, i: nat)
    requires
        agrees_except(v, w, n),
        node_in(v, n) matches Some(NodeView::Inner(dn, _)) && dn > d,
        descend(v, id, d, i) is Some,
    ensures
        descend(w, id, d, i) == descend(v, id, d, i),
    decreases d,
{
    assert(id != n);
    assert(v.0.contains_key(id));
    assert(node_in(w, id) == node_in(v, id));
    if d > 0 {
        let children = node_in(v, id)->0->Inner_1;
        let per = spec_pow(fanout_of(v), (d - 1) as nat);
        lemma_descend_below(v, w, n, children[(i / per) as int], (d - 1) as nat, i % per);
    }
}

/// The rightmost path below depth `dn` never passes the inner node `n` of
/// depth `dn` or a node missing from `v`.
proof fn lemma_spine_below(v: NodesView, w: NodesView, n: BlockId, id: BlockId, d: nat)
    requires
        agrees_except(v, w, n),
        node_in(v, n) is None || (node_in(v, n) matches Some(NodeView::Inner(dn, _)) && dn > d),
        spine(v, id, d) is Some,
    ensures
        spine(w, id, d) == spine(v, id, d),
    decreases d,
{
    assert(id != n);
    assert(v.0.contains_key(id));
    assert(node_in(w, id) == node_in(v, id));
    if d > 0 {
        let children = node_in(v, id)->0->Inner_1;
        lemma_spine_below(v, w, n, children.last(), (d - 1) as nat);
    }
}

proof fn lemma_keeps_agrees(v: NodesView, w: NodesView, n: BlockId)
    requires
        keeps(v, w),
        !v.0.contains_key(n),
    ensures
        agrees_except(v, w, n),
        extends_children(v, w, n),
        node_in(v, n) is None,
{
}

proof fn lemma_next_digit(index: int, n: int, per: int, fc: int)
    requires
        per > 0,
        n >= 1,
        0 <= fc < per,
        index == (n - 1) * per + fc + 1,
    ensures
        fc + 1 < per ==> index / per == n - 1 && index % per == fc + 1,
        fc + 1 == per ==> index / per == n && index % per == 0,
{
    if fc + 1 < per {
        vstd::arithmetic::div_mod::lemma_fundamental_div_mod_converse(index, per, n - 1, fc + 1);
    } else {
        assert(index == n * per + 0) by (nonlinear_arith)
            requires
                index == (n - 1) * per + fc + 1,
                fc + 1 == per,
        ;
        vstd::arithmetic::div_mod::lemma_fundamental_div_mod_converse(index, per, n, 0);
    }
}

/// What adding the leaf after the last one under the node `id` of depth
/// `depth` must achieve, from `v` to `w`: old paths and leaves stay, nodes
/// deeper than `depth` stay, and position `index` reaches a new leaf of
/// `size` zero bytes at the end of the rightmost path.
pub open spec fn leaf_appended(v: NodesView, w: NodesView, id: BlockId, depth: nat, index: nat, size: nat) -> bool {
    &&& w.1 == v.1
    &&& forall|y: BlockId| #[trigger] v.0.contains_key(y) ==> w.0.contains_key(y)
    &&& forall|x: BlockId, e: nat, j: nat|
        descend(v, x, e, j) is Some ==> #[trigger] descend(w, x, e, j) == descend(v, x, e, j)
    &&& forall|y: BlockId|
        (node_in(v, y) matches Some(NodeView::Leaf(_))) ==> #[trigger] node_in(w, y) == node_in(v, y)
    &&& forall|y: BlockId|
        (node_in(v, y) matches Some(NodeView::Inner(dy, _)) && dy > depth) ==> #[trigger] node_in(w, y)
            == node_in(v, y)
    &&& node_in(w, id) matches Some(NodeView::Inner(dd, _)) && dd == depth
    &&& spine(w, id, depth) == Some((index, size))
    &&& descend(w, id, depth, index) is Some
    &&& !v.0.contains_key(descend(w, id, depth, index)->0)
    &&& node_in(w, descend(w, id, depth, index)->0) == Some(
        NodeView::Leaf(Seq::new(size, |i: int| 0u8)),
    )
}

/// The subtree under `id` of depth `depth` can take one more leaf after its
/// last one.
pub open spec fn can_append(v: NodesView, id: BlockId, depth: nat, index: nat) -> bool {
    &&& spine(v, id, depth) is Some
    &&& index == spine_full(v, id, depth) + 1
    &&& descend(v, id, depth, spine_full(v, id, depth)) is Some
    &&& index < spec_pow(fanout_of(v), depth)
}

/// Moving the root's content to a fresh node `moved` that becomes the only
/// child of the root keeps every position reaching a leaf with the same
/// bytes, one level deeper.
proof fn lemma_raised_root(v: NodesView, w: NodesView, root: BlockId, moved: BlockId)
    requires
        40 <= v.1 <= u32::MAX,
        tree_ok(v, root),
        !v.0.contains_key(moved),
        agrees_except(v, w, root),
        w.0.contains_key(moved),
        node_in(w, moved) == node_in(v, root),
        node_in(w, root) == Some(NodeView::Inner((tree_depth(v, root) + 1) as u8, seq![moved])),
        tree_depth(v, root) < 255,
        spine_full(v, root, tree_depth(v, root)) + 1 == spec_pow(fanout_of(v), tree_depth(v, root)),
    ensures
        ({
            let d0 = tree_depth(v, root);
            let f = spine_full(v, root, d0);
            &&& spine(w, root, d0 + 1) == spine(v, root, d0)
            &&& f + 1 < spec_pow(fanout_of(v), d0 + 1)
            &&& forall|i: nat|
                i <= f ==> (#[trigger] descend(w, root, d0 + 1, i)) is Some && w.0.contains_key(
                    descend(w, root, d0 + 1, i)->0,
                ) && node_in(w, descend(w, root, d0 + 1, i)->0) == node_in(
                    v,
                    descend(v, root, d0, i)->0,
                )
            &&& forall|i: nat, j: nat|
                i < j <= f ==> #[trigger] descend(w, root, d0 + 1, i) != #[trigger] descend(
                    w,
                    root,
                    d0 + 1,
                    j,
                )
        }),
{
    let d0 = tree_depth(v, root);
    let f = spine_full(v, root, d0);
    let k = fanout_of(v);
    let per = spec_pow(k, d0);
    lemma_pow_positive(k, d0);
    assert(k >= 2);
    assert(per < k * per) by (nonlinear_arith)
        requires
            k >= 2,
            per >= 1,
    ;
    assert(spec_pow(k, d0 + 1) == k * per);
    assert(moved != root);
    if d0 == 0 {
        assert(spine(w, moved, 0) == spine(v, root, 0));
    } else {
        let c = node_in(v, root)->0->Inner_1;
        lemma_spine_below(v, w, root, c.last(), (d0 - 1) as nat);
        assert(spine(w, moved, d0) == spine(v, root, d0));
    }
    assert(0nat * per + f == f) by (nonlinear_arith);
    assert(spine(w, root, d0 + 1) == spine(v, root, d0));
    assert forall|i: nat| i <= f implies (#[trigger] descend(w, root, d0 + 1, i)) is Some
        && w.0.contains_key(descend(w, root, d0 + 1, i)->0) && node_in(
        w,
        descend(w, root, d0 + 1, i)->0,
    ) == node_in(v, descend(v, root, d0, i)->0) && (d0 > 0 ==> descend(w, root, d0 + 1, i)
        == descend(v, root, d0, i)) by {
        assert(descend(v, root, d0, i) is Some);
        vstd::arithmetic::div_mod::lemma_fundamental_div_mod_converse(i as int, per as int, 0, i as int);
        assert(descend(w, root, d0 + 1, i) == descend(w, moved, d0, i));
        if d0 > 0 {
            let c = node_in(v, root)->0->Inner_1;
            let per0 = spec_pow(k, (d0 - 1) as nat);
            lemma_descend_below(v, w, root, c[(i / per0) as int], (d0 - 1) as nat, i % per0);
            assert(descend(w, moved, d0, i) == descend(v, root, d0, i));
            lemma_descend_reaches_leaf(v, root, d0, i);
            let y = descend(v, root, d0, i)->0;
            assert(y != root);
        }
    }
    assert forall|i: nat, j: nat| i < j <= f implies #[trigger] descend(w, root, d0 + 1, i)
        != #[trigger] descend(w, root, d0 + 1, j) by {
        if d0 > 0 {
            assert(descend(w, root, d0 + 1, i) == descend(v, root, d0, i));
            assert(descend(w, root, d0 + 1, j) == descend(v, root, d0, j));
        } else {
            assert(spine(v, root, 0) matches Some((ff, _)) && ff == 0);
        }
    }
}

/// After a leaf of `size` zero bytes is added behind a full last leaf, the
/// tree is well formed and the blob gained `size` zero bytes.
proof fn lemma_appended_tree(
    v0: NodesView,
    w2: NodesView,
    w: NodesView,
    root: BlockId,
    d: nat,
    size: nat,
)
    requires
        40 <= v0.1 <= u32::MAX,
        w2.1 == v0.1,
        tree_ok(v0, root),
        spine_last(v0, root, tree_depth(v0, root)) == leaf_capacity_of(v0),
        size <= leaf_capacity_of(v0),
        spine(w2, root, d) == spine(v0, root, tree_depth(v0, root)),
        forall|i: nat|
            i <= spine_full(v0, root, tree_depth(v0, root)) ==> (#[trigger] descend(w2, root, d, i)) is Some
                && w2.0.contains_key(descend(w2, root, d, i)->0) && node_in(
                w2,
                descend(w2, root, d, i)->0,
            ) == node_in(v0, descend(v0, root, tree_depth(v0, root), i)->0),
        forall|i: nat, j: nat|
            i < j <= spine_full(v0, root, tree_depth(v0, root)) ==> #[trigger] descend(w2, root, d, i)
                != #[trigger] descend(w2, root, d, j),
        leaf_appended(w2, w, root, d, spine_full(v0, root, tree_depth(v0, root)) + 1, size),
    ensures
        tree_ok(w, root),
        tree_depth(w, root) == d,
        spine(w, root, d) == Some((spine_full(v0, root, tree_depth(v0, root)) + 1, size)),
        blob_bytes(w, root) == blob_bytes(v0, root) + Seq::new(size, |i: int| 0u8),
{
    let d0 = tree_depth(v0, root);
    let f = spine_full(v0, root, d0);
    let m = leaf_capacity_of(v0);
    let l = descend(w, root, d, f + 1)->0;
    assert(tree_depth(w, root) == d);
    assert forall|i: nat| i <= f implies #[trigger] leaf_payload(w, root, i) == leaf_payload(
        v0,
        root,
        i,
    ) by {
        let y = descend(w2, root, d, i)->0;
        assert(descend(w, root, d, i) == descend(w2, root, d, i));
        lemma_descend_reaches_leaf(v0, root, d0, i);
        assert(node_in(w2, y) matches Some(NodeView::Leaf(_)));
        assert(node_in(w, y) == node_in(w2, y));
    }
    assert(leaf_payload(w, root, f + 1) == Seq::new(size, |i: int| 0u8));
    assert(tree_ok(w, root)) by {
        assert forall|i: nat| i <= f + 1 implies #[trigger] descend(w, root, d, i) is Some by {
            if i <= f {
                assert(descend(w, root, d, i) == descend(w2, root, d, i));
            }
        }
        assert forall|i: nat, j: nat| i < j <= f + 1 implies #[trigger] descend(w, root, d, i)
            != #[trigger] descend(w, root, d, j) by {
            assert(descend(w, root, d, i) == descend(w2, root, d, i));
            if j <= f {
                assert(descend(w, root, d, j) == descend(w2, root, d, j));
            } else {
                assert(w2.0.contains_key(descend(w2, root, d, i)->0));
            }
        }
        assert forall|i: nat| i < f + 1 implies #[trigger] leaf_payload(w, root, i).len()
            == leaf_capacity_of(w) by {
            assert(leaf_payload(w, root, i) == leaf_payload(v0, root, i));
        }
    }
    let b0 = blob_bytes(v0, root);
    let b = blob_bytes(w, root);
    let z = Seq::new(size, |i: int| 0u8);
    assert(b0.len() == f * m + m);
    assert(f * m + m == (f + 1) * m) by (nonlinear_arith);
    assert(b.len() == (f + 1) * m + size);
    assert forall|o: int| 0 <= o < b.len() implies #[trigger] b[o] == (b0 + z)[o] by {
        if o < (f + 1) * m {
            lemma_position_bound(o, f as int, m as int, m as int);
            assert(leaf_payload(w, root, (o / m as int) as nat) == leaf_payload(
                v0,
                root,
                (o / m as int) as nat,
            ));
        } else {
            vstd::arithmetic::div_mod::lemma_fundamental_div_mod_converse(
                o,
                m as int,
                (f + 1) as int,
                o - (f + 1) * m,
            );
        }
    }
    assert(b =~= b0 + z);
}

proof fn lemma_resized_then_zeros(b: Seq<u8>, a: nat, s: nat)
    requires
        a >= b.len(),
    ensures
        resized(b, a) + Seq::new(s, |i: int| 0u8) == resized(b, a + s),
{
    assert(resized(b, a) + Seq::new(s, |i: int| 0u8) =~= resized(b, a + s));
}

/// The bytes after writing `data` from `offset` on: first padded with zero
/// bytes up to `offset + data.len()` where shorter, then overwritten there.
pub open spec fn write_result(bytes: Seq<u8>, offset: nat, data: Seq<u8>) -> Seq<u8> {
    let n = if offset + data.len() > bytes.len() {
        offset + data.len()
    } else {
        bytes.len()
    };
    let grown = resized(bytes, n);
    grown.subrange(0, offset as int) + data + grown.subrange((offset + data.len()) as int, n as int)
}

/// Whether `y` is the node `id` of depth `depth` or a node under it.
pub open spec fn in_tree(v: NodesView, id: BlockId, depth: nat, y: BlockId) -> bool
    decreases depth, 1nat, 0nat,
{
    y == id || (depth > 0 && match node_in(v, id) {
        Some(NodeView::Inner(nd, c)) => nd == depth && in_children(
            v,
            c,
            c.len(),
            (depth - 1) as nat,
            y,
        ),
        _ => false,
    })
}

/// Whether `y` lies in the tree under one of the first `n` of `children`,
/// each of depth `depth`.
pub open spec fn in_children(
    v: NodesView,
    children: Seq<BlockId>,
    n: nat,
    depth: nat,
    y: BlockId,
) -> bool
    decreases depth + 1, 0nat, n,
{
    n > 0 && n <= children.len() && (in_tree(v, children[n - 1], depth, y) || in_children(
        v,
        children,
        (n - 1) as nat,
        depth,
        y,
    ))
}

/// Every node under `id`, of depth `depth`, is stored and well formed at
/// its depth: leaves at depth 0, inner nodes of the right depth above.
pub open spec fn sound(v: NodesView, id: BlockId, depth: nat) -> bool
    decreases depth, 1nat, 0nat,
{
    match node_in(v, id) {
        Some(NodeView::Leaf(_)) => depth == 0,
        Some(NodeView::Inner(nd, c)) => depth > 0 && nd == depth && children_sound(
            v,
            c,
            c.len(),
            (depth - 1) as nat,
        ),
        None => false,
    }
}

/// The first `n` of `children`, each of depth `depth`, are sound.
pub open spec fn children_sound(v: NodesView, children: Seq<BlockId>, n: nat, depth: nat) -> bool
    decreases depth + 1, 0nat, n,
{
    n == 0 || (n <= children.len() && sound(v, children[n - 1], depth) && children_sound(
        v,
        children,
        (n - 1) as nat,
        depth,
    ))
}

proof fn lemma_children_sound(v: NodesView, children: Seq<BlockId>, n: nat, depth: nat, j: int)
    requires
        children_sound(v, children, n, depth),
        0 <= j < n,
    ensures
        sound(v, children[j], depth),
    decreases n,
{
    if j < n - 1 {
        lemma_children_sound(v, children, (n - 1) as nat, depth, j);
    }
}

/// The nodes of the tree rooted at `root`.
pub open spec fn tree_nodes(v: NodesView, root: BlockId) -> Set<BlockId> {
    Set::new(|y: BlockId| in_tree(v, root, tree_depth(v, root), y))
}

/// The counts of the tree rooted at `root` fit their machine types: its
/// depth, one level more, fits in a byte; the number of leaves that its
/// depth allows, and its byte count, fit in 64 bits.
pub open spec fn tree_fits(v: NodesView, root: BlockId) -> bool {
    &&& tree_depth(v, root) < 255
    &&& spec_pow(fanout_of(v), tree_depth(v, root)) <= u64::MAX
    &&& blob_bytes(v, root).len() <= u64::MAX
}

/// The tree rooted at `root` has as many leaves as its bytes need, and
/// no more levels than its leaves need: above the leaves, the leaves are
/// more than one level less could hold, so the root has two children or
/// more.
pub open spec fn tree_compact(v: NodesView, root: BlockId) -> bool {
    let d = tree_depth(v, root);
    let f = spine_full(v, root, d);
    &&& f + 1 == leaves_for_bytes(blob_bytes(v, root).len(), leaf_capacity_of(v))
    &&& (d > 0 ==> f + 1 > spec_pow(fanout_of(v), (d - 1) as nat))
}

/// A compact tree whose bytes fit in one leaf is that leaf alone: depth 0,
/// one leaf.
pub proof fn lemma_small_blob_is_one_leaf(v: NodesView, root: BlockId)
    requires
        40 <= v.1 <= u32::MAX,
        tree_ok(v, root),
        tree_compact(v, root),
        blob_bytes(v, root).len() <= leaf_capacity_of(v),
    ensures
        tree_depth(v, root) == 0,
        spine_full(v, root, 0) == 0,
{
    let d = tree_depth(v, root);
    let m = leaf_capacity_of(v);
    let n = blob_bytes(v, root).len();
    if n > 0 {
        assert((n - 1) as nat / m == 0) by (nonlinear_arith)
            requires
                0 <= n - 1 < m,
        ;
    }
    assert(leaves_for_bytes(n, m) == 1);
    if d > 0 {
        lemma_pow_positive(fanout_of(v), (d - 1) as nat);
    }
}

/// A tree whose root is an empty leaf is well formed and holds no bytes.
proof fn lemma_empty_leaf_tree(v: NodesView, root: BlockId)
    requires
        node_in(v, root) == Some(NodeView::Leaf(Seq::<u8>::empty())),
    ensures
        tree_ok(v, root),
        blob_bytes(v, root) == Seq::<u8>::empty(),
{
    assert(tree_depth(v, root) == 0);
    assert(spine(v, root, 0) == Some((0nat, 0nat)));
    assert(descend(v, root, 0, 0) == Some(root));
    assert(leaf_payload(v, root, 0) == Seq::<u8>::empty());
    assert(0nat * leaf_capacity_of(v) + 0nat == 0nat) by (nonlinear_arith);
    assert(spine(v, root, tree_depth(v, root)) == Some((0nat, 0nat)));
    assert(tree_num_bytes(v, root) == Some(0nat));
    assert(blob_bytes(v, root) =~= Seq::<u8>::empty());
}

/// Reading back what was written: after writing `data` at `offset`, the
/// bytes read from `offset` on, as many as were written, are `data`.
pub proof fn lemma_write_then_read(before: Seq<u8>, offset: nat, data: Seq<u8>)
    ensures
        read_range(write_result(before, offset, data), offset, data.len()) == data,
{
    let after = write_result(before, offset, data);
    assert(read_range(after, offset, data.len()) =~= data);
}

/// A write leaves the blob as long as before, or as long as the end of the
/// write where that is further; the bytes outside the write stay, and new
/// bytes between the old end and the write are zero.
pub proof fn lemma_write_extent(before: Seq<u8>, offset: nat, data: Seq<u8>)
    ensures
        write_result(before, offset, data).len() == if offset + data.len() > before.len() {
            offset + data.len()
        } else {
            before.len()
        },
        forall|i: int|
            0 <= i < write_result(before, offset, data).len() && !(offset <= i < offset
                + data.len()) ==> #[trigger] write_result(before, offset, data)[i] == if i
                < before.len() {
                before[i]
            } else {
                0u8
            },
{
}

/// Resizing twice: the blob ends up `m` bytes long, and its first bytes, as
/// many as both sizes and the original length allow, are kept.
pub proof fn lemma_resize_twice(original: Seq<u8>, n: nat, m: nat)
    ensures
        resized(resized(original, n), m).len() == m,
        forall|i: int|
            0 <= i < n && i < m && i < original.len() ==> #[trigger] resized(
                resized(original, n),
                m,
            )[i] == original[i],
{
}

/// Blobs kept as balanced trees of node blocks.
///
/// A tree is named by the id of its root, which stays the same while the
/// tree grows and shrinks. All leaves are at the depth of the root; every
/// inner node but those on the rightmost path is full, and every leaf but
/// the last holds as many bytes as a leaf can. The blob's bytes are the
/// leaves' bytes in order.
pub struct DataTreeStore<B: BlockStore> {
    node_store: DataNodeStore<B>,
}

impl<B: BlockStore> DataTreeStore<B> {
    /// The node store beneath.
    pub closed spec fn spec_node_store(&self) -> DataNodeStore<B> {
        self.node_store
    }

    /// The node store beneath is consistent.
    pub open spec fn wf(&self) -> bool {
        self.spec_node_store().wf()
    }

    /// A tree store over `block_store`, whose blocks have the physical size
    /// `block_size_bytes`.
    pub fn new(block_store: LockingBlockStore<B>, block_size_bytes: u32) -> (r: Result<
        Self,
        StoreError,
    >)
        requires
            block_store.wf(),
        ensures
            r matches Ok(s) ==> s.wf() && s.spec_node_store().blocks() == block_store.blocks()
                && s.spec_node_store().spec_node_block_size()
                == block_store.spec_base_store().spec_block_size_from_physical(
                block_size_bytes as u64,
            ).unwrap(),
            block_store.spec_base_store().spec_block_size_from_physical(block_size_bytes as u64)
                matches Some(n) ==> !(crate::node_store::MIN_NODE_BLOCK_SIZE <= n <= u32::MAX)
                ==> r is Err,
            block_store.spec_base_store().spec_block_size_from_physical(block_size_bytes as u64)
                is None ==> r is Err,
            r matches Ok(s) ==> s.spec_node_store().spec_reliable() == block_store.healthy(),
            (block_store.spec_base_store().reliable() && (block_store.spec_base_store().spec_block_size_from_physical(
                block_size_bytes as u64,
            ) matches Some(n) && crate::node_store::MIN_NODE_BLOCK_SIZE <= n <= u32::MAX)) ==> r is Ok,
    {
        let node_store = DataNodeStore::new(block_store, block_size_bytes)?;
        Ok(DataTreeStore { node_store })
    }

    /// The most bytes a leaf holds.
    pub fn virtual_block_size_bytes(&self) -> (r: u32)
        requires
            self.wf(),
        ensures
            r == self.spec_node_store().spec_max_leaf_payload(),
    {
        self.node_store.virtual_block_size_bytes()
    }

    /// The number of nodes in the store, over all trees.
    pub fn num_nodes(&self) -> (r: Result<u64, StoreError>)
        requires
            self.wf(),
        ensures
            r matches Ok(n) ==> n == self.spec_node_store().blocks().dom().len(),
    {
        self.node_store.num_nodes()
    }

    /// How many more blocks fit in the free space beneath, by estimate.
    pub fn estimate_space_for_num_blocks_left(&self) -> (r: Result<u64, StoreError>)
        requires
            self.wf(),
    {
        self.node_store.estimate_space_for_num_blocks_left()
    }

    /// Hands back the locking store beneath.
    pub fn into_block_store(self) -> (r: LockingBlockStore<B>)
        requires
            self.wf(),
        ensures
            r.wf(),
            r.blocks() == self.spec_node_store().blocks(),
    {
        self.node_store.into_block_store()
    }

    /// The node under `id`; a missing node is an error.
    fn load_existing(&mut self, id: &BlockId) -> (r: Result<NodeContent, StoreError>)
        requires
            old(self).wf(),
        ensures
            final(self).wf(),
            final(self).spec_node_store().blocks() == old(self).spec_node_store().blocks(),
            final(self).spec_node_store().spec_node_block_size() == old(self).spec_node_store().spec_node_block_size(),
            old(self).spec_node_store().spec_reliable() ==> final(self).spec_node_store().spec_reliable(),
            r matches Ok(n) ==> old(self).spec_node_store().node_at(*id) == Some(n@),
            old(self).spec_node_store().spec_reliable() && old(self).spec_node_store().node_at(*id) is Some ==> r is Ok,
    {
        match self.node_store.load(id)? {
            Some(n) => Ok(n),
            None => Err(StoreError::MissingNode),
        }
    }

    /// Creates a tree holding no bytes: a single empty leaf.
    pub fn create_tree(&mut self) -> (r: Result<BlockId, StoreError>)
        requires
            old(self).wf(),
        ensures
            final(self).wf(),
            r matches Ok(id) ==> !old(self).spec_node_store().blocks().contains_key(id) && final(self).spec_node_store().node_at(id) == Some(NodeView::Leaf(Seq::empty())) && tree_ok(nodes_of(final(self).spec_node_store()), id) && blob_bytes(nodes_of(final(self).spec_node_store()), id) == Seq::<u8>::empty(),
            old(self).spec_node_store().spec_reliable() ==> r is Ok || r == Err::<BlockId, StoreError>(
                StoreError::IdSpaceExhausted,
            ),
            old(self).spec_node_store().spec_reliable() ==> final(self).spec_node_store().spec_reliable(),
            r matches Ok(id) ==> tree_compact(nodes_of(final(self).spec_node_store()), id),
            r matches Ok(id) ==> sound(nodes_of(final(self).spec_node_store()), id, 0),
    {
        let empty: Vec<u8> = Vec::new();
        let id = self.node_store.create_new_leaf(empty.as_slice())?;
        proof {
            self.node_store.lemma_block_size_bounds();
            lemma_leaf_round_trip(self.node_store.spec_node_block_size(), empty@);
            let v = nodes_of(self.node_store);
            assert(tree_depth(v, id) == 0);
            assert(spine(v, id, 0) == Some((0nat, 0nat)));
            assert(descend(v, id, 0, 0) == Some(id));
            assert(leaf_payload(v, id, 0) == Seq::<u8>::empty());
            assert(0nat * leaf_capacity_of(v) + 0nat == 0nat) by (nonlinear_arith);
            assert(spine(v, id, tree_depth(v, id)) == Some((0nat, 0nat)));
            assert(tree_num_bytes(v, id) == Some(0nat));
            assert(blob_bytes(v, id) =~= Seq::<u8>::empty());
        }
        Ok(id)
    }

    /// Whether a tree is rooted at `root`: a well-formed node is stored
    /// there.
    pub fn load_tree(&mut self, root: &BlockId) -> (r: Result<bool, StoreError>)
        requires
            old(self).wf(),
        ensures
            final(self).wf(),
            final(self).spec_node_store().blocks() == old(self).spec_node_store().blocks(),
            final(self).spec_node_store().spec_node_block_size() == old(self).spec_node_store().spec_node_block_size(),
            old(self).spec_node_store().spec_reliable() ==> final(self).spec_node_store().spec_reliable(),
            r matches Ok(b) ==> b == old(self).spec_node_store().node_at(*root) is Some,
            old(self).spec_node_store().spec_reliable() && (old(self).spec_node_store().blocks().contains_key(*root)
                ==> old(self).spec_node_store().node_at(*root) is Some) ==> r is Ok,
    {
        match self.node_store.load(root)? {
            Some(_) => Ok(true),
            None => Ok(false),
        }
    }

    /// The children of an inner node, loaded; a missing child is an error.
    pub fn _load_children(&mut self, children: &[BlockId]) -> (r: Result<Vec<NodeContent>, StoreError>)
        requires
            old(self).wf(),
        ensures
            final(self).wf(),
            final(self).spec_node_store().blocks() == old(self).spec_node_store().blocks(),
            r matches Ok(v) ==> v@.len() == children@.len() && forall|i: int|
                0 <= i < children@.len() ==> old(self).spec_node_store().node_at(children@[i])
                    == Some(#[trigger] v@[i]@),
            old(self).spec_node_store().spec_reliable() && (forall|i: int|
                0 <= i < children@.len() ==> (#[trigger] old(self).spec_node_store().node_at(children@[i])) is Some)
                ==> r is Ok,
    {
        let ghost before = self.node_store;
        let mut loaded: Vec<NodeContent> = Vec::new();
        let mut i: usize = 0;
        while i < children.len()
            invariant
                self.wf(),
                before == old(self).spec_node_store(),
                self.node_store.blocks() == before.blocks(),
                self.node_store.spec_node_block_size() == before.spec_node_block_size(),
                old(self).spec_node_store().spec_reliable() ==> self.node_store.spec_reliable(),
                i <= children@.len(),
                loaded@.len() == i,
                forall|j: int|
                    0 <= j < i ==> before.node_at(children@[j]) == Some(#[trigger] loaded@[j]@),
                old(self).spec_node_store().spec_reliable() && (forall|i: int|
                    0 <= i < children@.len() ==> (#[trigger] old(self).spec_node_store().node_at(children@[i])) is Some)
                    ==> self.node_store.spec_reliable(),
            decreases children@.len() - i,
        {
            proof {
                if old(self).spec_node_store().spec_reliable() && (forall|i: int|
                    0 <= i < children@.len() ==> (#[trigger] old(self).spec_node_store().node_at(children@[i])) is Some) {
                    assert(old(self).spec_node_store().node_at(children@[i as int]) is Some);
                    assert(self.node_store.node_at(children@[i as int]) is Some);
                }
            }
            let node = self.load_existing(&children[i])?;
            loaded.push(node);
            i = i + 1;
        }
        Ok(loaded)
    }

    /// The depth of the tree rooted at `root`.
    pub fn depth(&mut self, root: &BlockId) -> (r: Result<u8, StoreError>)
        requires
            old(self).wf(),
        ensures
            final(self).wf(),
            final(self).spec_node_store().blocks() == old(self).spec_node_store().blocks(),
            final(self).spec_node_store().spec_node_block_size() == old(self).spec_node_store().spec_node_block_size(),
            old(self).spec_node_store().spec_reliable() ==> final(self).spec_node_store().spec_reliable(),
            r matches Ok(d) ==> match old(self).spec_node_store().node_at(*root) {
                Some(NodeView::Leaf(_)) => d == 0,
                Some(NodeView::Inner(nd, _)) => d == nd,
                None => false,
            },
            old(self).spec_node_store().spec_reliable() && old(self).spec_node_store().node_at(*root) is Some ==> r is Ok,
    {
        match self.load_existing(root)? {
            NodeContent::Leaf(_) => Ok(0),
            NodeContent::Inner(d, _) => Ok(d),
        }
    }

    /// The ids of all leaves of the tree rooted at `root`, left to right:
    /// the leaf at each position up to that of the last leaf. Fails where a
    /// node on the way is missing or malformed.
    pub fn all_leaves(&mut self, root: &BlockId) -> (r: Result<Vec<BlockId>, StoreError>)
        requires
            old(self).wf(),
        ensures
            final(self).wf(),
            final(self).spec_node_store().blocks() == old(self).spec_node_store().blocks(),
            final(self).spec_node_store().spec_node_block_size() == old(self).spec_node_store().spec_node_block_size(),
            old(self).spec_node_store().spec_reliable() ==> final(self).spec_node_store().spec_reliable(),
            r matches Ok(v) ==> ({
                let v0 = nodes_of(old(self).spec_node_store());
                let d = tree_depth(v0, *root);
                &&& spine(v0, *root, d) is Some
                &&& v@.len() == spine_full(v0, *root, d) + 1
                &&& forall|i: int| 0 <= i < v@.len() ==> descend(v0, *root, d, i as nat) == Some(#[trigger] v@[i])
            }),
            old(self).spec_node_store().spec_reliable() && tree_ok(nodes_of(old(self).spec_node_store()), *root)
                && tree_fits(nodes_of(old(self).spec_node_store()), *root) ==> r is Ok,
    {
        let ghost before = self.spec_node_store();
        let ghost vv = nodes_of(before);
        let ghost good = old(self).spec_node_store().spec_reliable() && tree_ok(vv, *root) && tree_fits(vv, *root);
        proof {
            self.node_store.lemma_block_size_bounds();
            if good {
                let dd = tree_depth(vv, *root);
                lemma_descend_reaches_leaf(vv, *root, dd, spine_full(vv, *root, dd));
            }
        }
        let (full, _, _) = self.spine_info(root)?;
        let count = match full.checked_add(1) {
            Some(c) => c,
            None => {
                return Err(StoreError::Overflow);
            },
        };
        let mut out: Vec<BlockId> = Vec::new();
        let mut i: u64 = 0;
        while i < count
            invariant
                self.wf(),
                before == old(self).spec_node_store(),
                self.node_store.blocks() == before.blocks(),
                self.node_store.spec_node_block_size() == before.spec_node_block_size(),
                old(self).spec_node_store().spec_reliable() ==> self.node_store.spec_reliable(),
                i <= count,
                out@.len() == i,
                forall|j: int|
                    0 <= j < i ==> descend(
                        nodes_of(before),
                        *root,
                        tree_depth(nodes_of(before), *root),
                        j as nat,
                    ) == Some(#[trigger] out@[j]),
                vv == nodes_of(before),
                good == (old(self).spec_node_store().spec_reliable() && tree_ok(vv, *root) && tree_fits(vv, *root)),
                good ==> count == spine_full(vv, *root, tree_depth(vv, *root)) + 1,
            decreases count - i,
        {
            let (id, _) = self.leaf_at(root, i)?;
            out.push(id);
            i = i + 1;
        }
        Ok(out)
    }

    /// Walks the rightmost path of the tree rooted at `root`. Gives the
    /// number of leaves left of the last one, the byte count of the last
    /// leaf, and the depth.
    fn spine_info(&mut self, root: &BlockId) -> (r: Result<(u64, u64, u8), StoreError>)
        requires
            old(self).wf(),
        ensures
            final(self).wf(),
            final(self).spec_node_store().blocks() == old(self).spec_node_store().blocks(),
            final(self).spec_node_store().spec_node_block_size() == old(self).spec_node_store().spec_node_block_size(),
            old(self).spec_node_store().spec_reliable() ==> final(self).spec_node_store().spec_reliable(),
            r matches Ok((full, last, depth)) ==> spine(
                nodes_of(old(self).spec_node_store()),
                *root,
                tree_depth(nodes_of(old(self).spec_node_store()), *root),
            ) == Some((full as nat, last as nat)) && depth == tree_depth(
                nodes_of(old(self).spec_node_store()),
                *root,
            ),
            old(self).spec_node_store().spec_reliable() && tree_ok(nodes_of(old(self).spec_node_store()), *root)
                && tree_fits(nodes_of(old(self).spec_node_store()), *root) ==> r is Ok,
    {
        let ghost before = self.spec_node_store();
        let ghost v = nodes_of(before);
        let ghost good = old(self).spec_node_store().spec_reliable() && tree_ok(v, *root) && tree_fits(v, *root);
        let k = self.node_store.max_children() as u64;
        proof {
            self.node_store.lemma_block_size_bounds();
            if good {
                let dd = tree_depth(v, *root);
                let f = spine_full(v, *root, dd);
                lemma_descend_reaches_leaf(v, *root, dd, f);
                assert(before.node_at(*root) is Some);
            }
        }
        let mut current = self.load_existing(root)?;
        let depth: u8 = match &current {
            NodeContent::Leaf(_) => 0,
            NodeContent::Inner(d, _) => *d,
        };
        let mut d: u8 = depth;
        let mut full: u64 = 0;
        let ghost mut id = *root;
        while d > 0
            invariant
                self.wf(),
                before == old(self).spec_node_store(),
                self.node_store.blocks() == before.blocks(),
                self.node_store.spec_node_block_size() == before.spec_node_block_size(),
                old(self).spec_node_store().spec_reliable() ==> self.node_store.spec_reliable(),
                before.node_at(id) == Some(current@),
                k == fanout_of(nodes_of(before)),
                depth == tree_depth(nodes_of(before), *root),
                spine(nodes_of(before), *root, depth as nat) == add_full(
                    spine(nodes_of(before), id, d as nat),
                    full as nat,
                ),
                v == nodes_of(before),
                good == (old(self).spec_node_store().spec_reliable() && tree_ok(v, *root) && tree_fits(v, *root)),
                good ==> tree_ok(v, *root) && tree_fits(v, *root),
                good ==> spine_full(v, *root, depth as nat) <= u64::MAX,
                good ==> self.node_store.spec_reliable(),
                d <= depth,
                k >= 2,
            decreases d,
        {
            proof {
                if good {
                    assert(spine(v, id, d as nat) is Some);
                    lemma_pow_mono(k as nat, (d - 1) as nat, depth as nat);
                    assert(spec_pow(k as nat, (d - 1) as nat) <= u64::MAX);
                }
            }
            let children = match current {
                NodeContent::Inner(nd, c) => {
                    if nd != d {
                        return Err(StoreError::NodeFormat);
                    }
                    c
                },
                NodeContent::Leaf(_) => {
                    return Err(StoreError::NodeFormat);
                },
            };
            let n = children.len();
            if n == 0 {
                return Err(StoreError::NodeFormat);
            }
            let per_child = match checked_pow(k, d - 1) {
                Some(p) => p,
                None => {
                    return Err(StoreError::Overflow);
                },
            };
            proof {
                if good {
                    let last = children@[n - 1];
                    assert(node_in(v, id) == Some(NodeView::Inner(d, children@)));
                    assert(spine(v, id, d as nat) == Some(
                        (
                            ((n - 1) as nat) * spec_pow(k as nat, (d - 1) as nat) + spine_full(v, last, (d - 1) as nat),
                            spine_last(v, last, (d - 1) as nat),
                        ),
                    ));
                    assert(spine_full(v, *root, depth as nat) == full + spine_full(v, id, d as nat));
                    assert(per_child == spec_pow(k as nat, (d - 1) as nat));
                    assert(((n - 1) as nat) * spec_pow(k as nat, (d - 1) as nat) + full <= u64::MAX);
                    assert(((n - 1) as u64) as int * (per_child as int) + full as int <= u64::MAX);
                }
            }
            full = checked_mul_add((n - 1) as u64, per_child, full)?;
            proof {
                id = children@[n - 1];
                if good {
                    assert(spine(v, id, (d - 1) as nat) is Some);
                    assert(before.node_at(id) is Some);
                }
            }
            current = self.load_existing(&children[n - 1])?;
            d = d - 1;
        }
        proof {
            if good {
                assert(spine(v, id, 0) is Some);
            }
        }
        match current {
            NodeContent::Leaf(data) => Ok((full, data.len() as u64, depth)),
            NodeContent::Inner(_, _) => Err(StoreError::NodeFormat),
        }
    }

    /// The number of leaves of the tree rooted at `root`.
    pub fn num_leaves(&mut self, root: &BlockId) -> (r: Result<u64, StoreError>)
        requires
            old(self).wf(),
        ensures
            final(self).wf(),
            final(self).spec_node_store().blocks() == old(self).spec_node_store().blocks(),
            final(self).spec_node_store().spec_node_block_size() == old(self).spec_node_store().spec_node_block_size(),
            old(self).spec_node_store().spec_reliable() ==> final(self).spec_node_store().spec_reliable(),
            r matches Ok(n) ==> spine(
                nodes_of(old(self).spec_node_store()),
                *root,
                tree_depth(nodes_of(old(self).spec_node_store()), *root),
            ) matches Some((f, _)) && n == f + 1,
            old(self).spec_node_store().spec_reliable() && tree_ok(nodes_of(old(self).spec_node_store()), *root)
                && tree_fits(nodes_of(old(self).spec_node_store()), *root) ==> r is Ok,
    {
        let ghost v = nodes_of(self.node_store);
        let ghost good = old(self).spec_node_store().spec_reliable() && tree_ok(v, *root) && tree_fits(v, *root);
        proof {
            self.node_store.lemma_block_size_bounds();
            if good {
                let dd = tree_depth(v, *root);
                lemma_descend_reaches_leaf(v, *root, dd, spine_full(v, *root, dd));
            }
        }
        let (full, _, _) = self.spine_info(root)?;
        match full.checked_add(1) {
            Some(n) => Ok(n),
            None => Err(StoreError::Overflow),
        }
    }

    /// The number of bytes of the blob held by the tree rooted at `root`:
    /// the full leaves left of the last one, and the bytes of the last.
    pub fn num_bytes(&mut self, root: &BlockId) -> (r: Result<u64, StoreError>)
        requires
            old(self).wf(),
        ensures
            final(self).wf(),
            final(self).spec_node_store().blocks() == old(self).spec_node_store().blocks(),
            final(self).spec_node_store().spec_node_block_size() == old(self).spec_node_store().spec_node_block_size(),
            old(self).spec_node_store().spec_reliable() ==> final(self).spec_node_store().spec_reliable(),
            r matches Ok(n) ==> tree_num_bytes(nodes_of(old(self).spec_node_store()), *root) == Some(n as nat),
            old(self).spec_node_store().spec_reliable() && tree_ok(nodes_of(old(self).spec_node_store()), *root)
                && tree_fits(nodes_of(old(self).spec_node_store()), *root) ==> r is Ok,
    {
        let ghost v = nodes_of(self.node_store);
        let m = self.node_store.virtual_block_size_bytes() as u64;
        let (full, last, _) = self.spine_info(root)?;
        checked_mul_add(full, m, last)
    }

    /// The leaf at position `index` of the tree rooted at `root`, found by
    /// the digits of `index` to the base of the fanout, with its bytes.
    fn leaf_at(&mut self, root: &BlockId, index: u64) -> (r: Result<(BlockId, Vec<u8>), StoreError>)
        requires
            old(self).wf(),
        ensures
            final(self).wf(),
            final(self).spec_node_store().blocks() == old(self).spec_node_store().blocks(),
            final(self).spec_node_store().spec_node_block_size() == old(self).spec_node_store().spec_node_block_size(),
            old(self).spec_node_store().spec_reliable() ==> final(self).spec_node_store().spec_reliable(),
            r matches Ok((id, data)) ==> old(self).spec_node_store().node_at(id) == Some(
                NodeView::Leaf(data@),
            ) && descend(
                nodes_of(old(self).spec_node_store()),
                *root,
                tree_depth(nodes_of(old(self).spec_node_store()), *root),
                index as nat,
            ) == Some(id),
            old(self).spec_node_store().spec_reliable() && tree_ok(nodes_of(old(self).spec_node_store()), *root)
                && tree_fits(nodes_of(old(self).spec_node_store()), *root) && index <= spine_full(
                nodes_of(old(self).spec_node_store()),
                *root,
                tree_depth(nodes_of(old(self).spec_node_store()), *root),
            ) ==> r is Ok,
    {
        let ghost before = self.spec_node_store();
        let ghost v = nodes_of(before);
        let ghost dtop = tree_depth(v, *root);
        let ghost good = old(self).spec_node_store().spec_reliable() && tree_ok(v, *root) && tree_fits(v, *root)
            && index <= spine_full(v, *root, dtop);
        let k = self.node_store.max_children() as u64;
        proof {
            self.node_store.lemma_block_size_bounds();
            if good {
                assert(descend(v, *root, dtop, index as nat) is Some);
                assert(before.node_at(*root) is Some);
            }
        }
        let mut id = *root;
        let mut current = self.load_existing(root)?;
        let mut d: u8 = match &current {
            NodeContent::Leaf(_) => 0,
            NodeContent::Inner(nd, _) => *nd,
        };
        let mut rem = index;
        while d > 0
            invariant
                self.wf(),
                before == old(self).spec_node_store(),
                self.node_store.blocks() == before.blocks(),
                self.node_store.spec_node_block_size() == before.spec_node_block_size(),
                old(self).spec_node_store().spec_reliable() ==> self.node_store.spec_reliable(),
                before.node_at(id) == Some(current@),
                k == fanout_of(nodes_of(before)),
                descend(nodes_of(before), *root, tree_depth(nodes_of(before), *root), index as nat) == descend(
                    nodes_of(before),
                    id,
                    d as nat,
                    rem as nat,
                ),
                v == nodes_of(before),
                dtop == tree_depth(v, *root),
                good == (old(self).spec_node_store().spec_reliable() && tree_ok(v, *root) && tree_fits(v, *root)
                    && index <= spine_full(v, *root, dtop)),
                good ==> descend(v, *root, dtop, index as nat) is Some,
                good ==> spec_pow(k as nat, dtop) <= u64::MAX,
                good ==> self.node_store.spec_reliable(),
                d <= dtop,
                k >= 2,
            decreases d,
        {
            proof {
                if good {
                    lemma_pow_mono(k as nat, (d - 1) as nat, dtop);
                    lemma_pow_positive(k as nat, (d - 1) as nat);
                    assert(spec_pow(k as nat, (d - 1) as nat) <= u64::MAX);
                }
            }
            let children = match current {
                NodeContent::Inner(nd, c) => {
                    if nd != d {
                        return Err(StoreError::NodeFormat);
                    }
                    c
                },
                NodeContent::Leaf(_) => {
                    return Err(StoreError::NodeFormat);
                },
            };
            let per_child = match checked_pow(k, d - 1) {
                Some(p) => p,
                None => {
                    return Err(StoreError::Overflow);
                },
            };
            if per_child == 0 {
                return Err(StoreError::Overflow);
            }
            let digit = rem / per_child;
            rem = rem % per_child;
            if digit >= children.len() as u64 {
                return Err(StoreError::NodeFormat);
            }
            id = children[digit as usize];
            proof {
                if good {
                    assert(before.node_at(id) is Some);
                }
            }
            current = self.load_existing(&id)?;
            d = d - 1;
        }
        match current {
            NodeContent::Leaf(data) => Ok((id, data)),
            NodeContent::Inner(_, _) => Err(StoreError::NodeFormat),
        }
    }

    /// Up to `size` bytes of the blob held by the tree rooted at `root`,
    /// from byte `offset` on; fewer where the blob ends first.
    pub fn read_bytes(&mut self, root: &BlockId, offset: u64, size: u64) -> (r: Result<
        Vec<u8>,
        StoreError,
    >)
        requires
            old(self).wf(),
        ensures
            final(self).wf(),
            final(self).spec_node_store().blocks() == old(self).spec_node_store().blocks(),
            final(self).spec_node_store().spec_node_block_size() == old(self).spec_node_store().spec_node_block_size(),
            old(self).spec_node_store().spec_reliable() ==> final(self).spec_node_store().spec_reliable(),
            r matches Ok(v) ==> v@.len() <= size && tree_num_bytes(nodes_of(old(self).spec_node_store()), *root)
                is Some && v@ == read_range(
                blob_bytes(nodes_of(old(self).spec_node_store()), *root),
                offset as nat,
                size as nat,
            ),
            old(self).spec_node_store().spec_reliable() && tree_ok(nodes_of(old(self).spec_node_store()), *root)
                && tree_fits(nodes_of(old(self).spec_node_store()), *root) ==> r is Ok,
    {
        let ghost before = self.spec_node_store();
        let ghost v = nodes_of(before);
        let ghost good = old(self).spec_node_store().spec_reliable() && tree_ok(v, *root) && tree_fits(v, *root);
        let total = self.num_bytes(root)?;
        let ghost blob = blob_bytes(nodes_of(before), *root);
        assert(blob.len() == total);
        if offset >= total {
            assert(read_range(blob, offset as nat, size as nat) =~= Seq::<u8>::empty());
            return Ok(Vec::new());
        }
        let end = if size > total - offset {
            total
        } else {
            offset + size
        };
        let m = self.node_store.virtual_block_size_bytes() as u64;
        proof {
            self.node_store.lemma_block_size_bounds();
        }
        let mut out: Vec<u8> = Vec::new();
        let mut pos = offset;
        while pos < end
            invariant
                self.wf(),
                before == old(self).spec_node_store(),
                self.node_store.blocks() == before.blocks(),
                self.node_store.spec_node_block_size() == before.spec_node_block_size(),
                old(self).spec_node_store().spec_reliable() ==> self.node_store.spec_reliable(),
                offset <= pos <= end,
                end - offset <= size,
                end <= total,
                out@.len() == pos - offset,
                m >= 1,
                m == leaf_capacity_of(nodes_of(before)),
                blob == blob_bytes(nodes_of(before), *root),
                blob.len() == total,
                out@ == blob.subrange(offset as int, pos as int),
                v == nodes_of(before),
                good == (old(self).spec_node_store().spec_reliable() && tree_ok(v, *root) && tree_fits(v, *root)),
                good ==> tree_num_bytes(v, *root) == Some(total as nat),
                40 <= v.1 <= u32::MAX,
            decreases end - pos,
        {
            let leaf_index = pos / m;
            let within = pos % m;
            let ghost f = spine_full(v, *root, tree_depth(v, *root));
            proof {
                if good {
                    let l = spine_last(v, *root, tree_depth(v, *root));
                    lemma_blob_ends_with_last_leaf(v, *root);
                    lemma_spine_is_last_position(v, *root, tree_depth(v, *root));
                    lemma_leaf_round_trip(v.1, leaf_payload(v, *root, f));
                    vstd::arithmetic::div_mod::lemma_fundamental_div_mod(pos as int, m as int);
                    lemma_position_bound(pos as int, f as int, l as int, m as int);
                }
            }
            let (_, data) = self.leaf_at(root, leaf_index)?;
            assert(data@ == leaf_payload(nodes_of(before), *root, leaf_index as nat));
            let room = m - within;
            let n = if end - pos < room {
                end - pos
            } else {
                room
            };
            let stop = within + n;
            proof {
                if good {
                    let l = spine_last(v, *root, tree_depth(v, *root));
                    if leaf_index < f {
                        assert(leaf_payload(v, *root, leaf_index as nat).len() == m);
                    } else {
                        assert(leaf_payload(v, *root, f).len() == l);
                        assert(within + n <= l) by (nonlinear_arith)
                            requires
                                pos == m * f + within,
                                pos + n <= end,
                                end <= total,
                                total == f * m + l,
                        ;
                    }
                }
            }
            if stop > data.len() as u64 {
                return Err(StoreError::NodeFormat);
            }
            let ghost prev = out@;
            crate::node::push_all(
                &mut out,
                vstd::slice::slice_subrange(data.as_slice(), within as usize, stop as usize),
            );
            proof {
                assert forall|t: int| 0 <= t < n implies #[trigger] blob[pos + t] == data@[within
                    + t] by {
                    lemma_same_leaf(pos as int, t, m as int);
                }
                assert forall|i: int| 0 <= i < pos + n - offset implies #[trigger] out@[i]
                    == blob.subrange(offset as int, pos + n)[i] by {
                    if i >= pos - offset {
                        let t = i - (pos - offset);
                        assert(out@[i] == data@[within + t]);
                        assert(blob[pos + t] == data@[within + t]);
                    } else {
                        assert(out@[i] == prev[i]);
                    }
                }
                assert(out@ =~= blob.subrange(offset as int, pos + n));
            }
            pos = pos + n;
        }
        assert(read_range(blob, offset as nat, size as nat) =~= blob.subrange(
            offset as int,
            end as int,
        ));
        Ok(out)
    }

    /// Sets the byte count of the last leaf of the tree rooted at `root`,
    /// cutting it or padding it with zero bytes.
    fn set_last_leaf_size(&mut self, root: &BlockId, size: u64) -> (r: Result<(), StoreError>)
        requires
            old(self).wf(),
            size <= old(self).spec_node_store().spec_max_leaf_payload(),
        ensures
            final(self).wf(),
            final(self).spec_node_store().spec_node_block_size() == old(self).spec_node_store().spec_node_block_size(),
            old(self).spec_node_store().spec_reliable() ==> final(self).spec_node_store().spec_reliable(),
            ({
                let v0 = nodes_of(old(self).spec_node_store());
                let v1 = nodes_of(final(self).spec_node_store());
                let f = spine_full(v0, *root, tree_depth(v0, *root));
                (r is Ok && tree_ok(v0, *root)) ==> tree_ok(v1, *root) && blob_bytes(v1, *root)
                    == resized(blob_bytes(v0, *root), f * leaf_capacity_of(v0) + size as nat)
                    && spine(v1, *root, tree_depth(v1, *root)) == Some((f, size as nat))
                    && tree_depth(v1, *root) == tree_depth(v0, *root)
            }),
            old(self).spec_node_store().spec_reliable() && tree_ok(nodes_of(old(self).spec_node_store()), *root)
                && tree_fits(nodes_of(old(self).spec_node_store()), *root) ==> r is Ok,
    {
        proof {
            self.node_store.lemma_block_size_bounds();
        }
        let ghost v0 = nodes_of(self.node_store);
        let (full, _, _) = self.spine_info(root)?;
        let (leaf_id, data) = self.leaf_at(root, full)?;
        let ghost p = data@;
        let mut data = data;
        data.resize(size as usize, 0u8);
        let ghost updated = data@;
        let r = self.node_store.overwrite_with_leaf(&leaf_id, data.as_slice());
        proof {
            if r is Ok && tree_ok(v0, *root) {
                let d = tree_depth(v0, *root);
                let f = full as nat;
                let m = leaf_capacity_of(v0);
                assert(nodes_of(self.node_store) == with_leaf(v0, leaf_id, updated));
                lemma_set_last_leaf(v0, *root, leaf_id, updated);
                lemma_blob_ends_with_last_leaf(v0, *root);
                assert(leaf_payload(v0, *root, f) == p);
                let b = blob_bytes(v0, *root);
                let prefix = b.subrange(0, (f * m) as int);
                if size <= p.len() {
                    assert(updated =~= p.subrange(0, size as int));
                    assert(prefix + updated =~= b.subrange(0, f * m + size));
                } else {
                    assert(updated =~= p + Seq::new((size - p.len()) as nat, |i: int| 0u8));
                    assert(prefix + updated =~= b + Seq::new(
                        (f * m + size - b.len()) as nat,
                        |i: int| 0u8,
                    ));
                }
            }
        }
        r
    }

    /// A new subtree of depth `depth` holding one leaf of `size` zero
    /// bytes: the leaf, under a chain of inner nodes with one child each.
    fn new_chain(&mut self, depth: u8, size: u64) -> (r: Result<BlockId, StoreError>)
        requires
            old(self).wf(),
            size <= old(self).spec_node_store().spec_max_leaf_payload(),
        ensures
            final(self).wf(),
            final(self).spec_node_store().spec_node_block_size() == old(self).spec_node_store().spec_node_block_size(),
            old(self).spec_node_store().spec_reliable() ==> final(self).spec_node_store().spec_reliable(),
            r matches Ok(c) ==> ({
                let v = nodes_of(old(self).spec_node_store());
                let w = nodes_of(final(self).spec_node_store());
                &&& keeps(v, w)
                &&& !v.0.contains_key(c)
                &&& w.0.contains_key(c)
                &&& descend(w, c, depth as nat, 0) is Some
                &&& !v.0.contains_key(descend(w, c, depth as nat, 0)->0)
                &&& node_in(w, descend(w, c, depth as nat, 0)->0) == Some(
                    NodeView::Leaf(Seq::new(size as nat, |i: int| 0u8)),
                )
                &&& spine(w, c, depth as nat) == Some((0nat, size as nat))
            }),
            old(self).spec_node_store().spec_reliable() ==> r is Ok || r == Err::<BlockId, StoreError>(
                StoreError::IdSpaceExhausted,
            ),
    {
        proof {
            self.node_store.lemma_block_size_bounds();
        }
        let ghost v = nodes_of(self.node_store);
        let zeros = zero_bytes(size as usize);
        let mut current = self.node_store.create_new_leaf(zeros.as_slice())?;
        let ghost leaf = current;
        let ghost block_size = self.node_store.spec_node_block_size();
        proof {
            lemma_leaf_round_trip(block_size, zeros@);
            let w = nodes_of(self.node_store);
            assert(keeps(v, w));
            assert(descend(w, current, 0, 0) == Some(leaf));
            assert(spine(w, current, 0) == Some((0nat, size as nat)));
        }
        let mut level: u8 = 0;
        while level < depth
            invariant
                self.wf(),
                self.node_store.spec_node_block_size() == block_size,
                old(self).spec_node_store().spec_reliable() ==> self.node_store.spec_reliable(),
                block_size == old(self).spec_node_store().spec_node_block_size(),
                40 <= block_size <= u32::MAX,
                v == nodes_of(old(self).spec_node_store()),
                level <= depth,
                keeps(v, nodes_of(self.node_store)),
                !v.0.contains_key(current),
                !v.0.contains_key(leaf),
                nodes_of(self.node_store).0.contains_key(current),
                nodes_of(self.node_store).0.contains_key(leaf),
                descend(nodes_of(self.node_store), current, level as nat, 0) == Some(leaf),
                node_in(nodes_of(self.node_store), leaf) == Some(
                    NodeView::Leaf(Seq::new(size as nat, |i: int| 0u8)),
                ),
                spine(nodes_of(self.node_store), current, level as nat) == Some(
                    (0nat, size as nat),
                ),
            decreases depth - level,
        {
            let ghost w_prev = nodes_of(self.node_store);
            let ghost below = current;
            level = level + 1;
            let one: Vec<BlockId> = vec![current];
            current = self.node_store.create_new_inner(level, one.as_slice())?;
            proof {
                let w = nodes_of(self.node_store);
                crate::node::lemma_inner_round_trip(block_size, level, one@);
                assert(one@ == seq![below]);
                assert(keeps(w_prev, w));
                assert(keeps(v, w));
                lemma_keeps_agrees(w_prev, w, current);
                lemma_descend_grow(w_prev, w, current, below, (level - 1) as nat, 0);
                lemma_spine_below(w_prev, w, current, below, (level - 1) as nat);
                let per = spec_pow(fanout_of(w), (level - 1) as nat);
                lemma_pow_positive(fanout_of(w), (level - 1) as nat);
                assert(0nat / per == 0);
                assert(0nat % per == 0);
                assert(descend(w, current, level as nat, 0) == Some(leaf));
                assert(0nat * per + 0 == 0) by (nonlinear_arith);
                assert(spine(w, current, level as nat) == Some((0nat, size as nat)));
            }
        }
        Ok(current)
    }

    /// Adds the leaf at position `index`, of `size` zero bytes, under the
    /// inner node `id` of depth `depth`.
    fn insert_leaf_under(&mut self, id: &BlockId, depth: u8, index: u64, size: u64) -> (r: Result<
        (),
        StoreError,
    >)
        requires
            old(self).wf(),
            depth >= 1,
            size <= old(self).spec_node_store().spec_max_leaf_payload(),
        ensures
            final(self).wf(),
            final(self).spec_node_store().spec_node_block_size() == old(self).spec_node_store().spec_node_block_size(),
            old(self).spec_node_store().spec_reliable() ==> final(self).spec_node_store().spec_reliable(),
            (r is Ok && can_append(nodes_of(old(self).spec_node_store()), *id, depth as nat, index as nat))
                ==> leaf_appended(
                nodes_of(old(self).spec_node_store()),
                nodes_of(final(self).spec_node_store()),
                *id,
                depth as nat,
                index as nat,
                size as nat,
            ),
            old(self).spec_node_store().spec_reliable() && can_append(nodes_of(old(self).spec_node_store()), *id, depth as nat, index as nat)
                && spec_pow(fanout_of(nodes_of(old(self).spec_node_store())), (depth - 1) as nat) <= u64::MAX
                ==> r is Ok || r == Err::<(), StoreError>(StoreError::IdSpaceExhausted),
        decreases depth,
    {
        proof {
            self.node_store.lemma_block_size_bounds();
        }
        let ghost v = nodes_of(self.node_store);
        let ghost good = old(self).spec_node_store().spec_reliable() && can_append(v, *id, depth as nat, index as nat)
            && spec_pow(fanout_of(v), (depth - 1) as nat) <= u64::MAX;
        proof {
            if good {
                assert(spine(v, *id, depth as nat) is Some);
                assert(self.node_store.node_at(*id) is Some);
                lemma_pow_positive(fanout_of(v), (depth - 1) as nat);
            }
        }
        let ghost block_size = self.node_store.spec_node_block_size();
        let k = self.node_store.max_children();
        let mut children = match self.load_existing(id)? {
            NodeContent::Inner(nd, c) => {
                if nd != depth {
                    return Err(StoreError::NodeFormat);
                }
                c
            },
            NodeContent::Leaf(_) => {
                return Err(StoreError::NodeFormat);
            },
        };
        let per_child = match checked_pow(k as u64, depth - 1) {
            Some(p) => p,
            None => {
                return Err(StoreError::Overflow);
            },
        };
        if per_child == 0 {
            return Err(StoreError::Overflow);
        }
        let digit = index / per_child;
        let rem = index % per_child;
        let n = children.len();
        let ghost pre = can_append(v, *id, depth as nat, index as nat);
        let ghost fc: nat = 0;
        proof {
            if pre {
                let f = spine_full(v, *id, depth as nat);
                let last = children@.last();
                fc = spine_full(v, last, (depth - 1) as nat);
                lemma_last_digit(f as int, n as int, per_child as int, fc as int);
                lemma_descend_reaches_leaf(v, last, (depth - 1) as nat, fc);
                if depth == 1 {
                    assert(fc == 0);
                    assert(per_child == 1);
                }
                lemma_next_digit(index as int, n as int, per_child as int, fc as int);
                if good {
                    if fc + 1 == per_child {
                        vstd::arithmetic::div_mod::lemma_fundamental_div_mod(index as int, per_child as int);
                        assert(index as int == (n as int) * (per_child as int)) by (nonlinear_arith)
                            requires
                                index as int == (per_child as int) * (index as int / per_child as int)
                                    + (index as int % per_child as int),
                                index as int / per_child as int == n as int,
                                index as int % per_child as int == 0,
                        ;
                        assert(spec_pow(k as nat, depth as nat) == k * per_child);
                        assert(n < k) by (nonlinear_arith)
                            requires
                                index == n * per_child,
                                index < k * per_child,
                                per_child >= 1,
                        ;
                    } else {
                        assert(depth > 1);
                        assert(can_append(v, children@.last(), (depth - 1) as nat, rem as nat));
                        lemma_pow_mono(k as nat, (depth - 2) as nat, (depth - 1) as nat);
                    }
                }
            }
        }
        if digit < n as u64 {
            if depth == 1 {
                return Err(StoreError::NodeFormat);
            }
            let child = children[digit as usize];
            let r = self.insert_leaf_under(&child, depth - 1, rem, size);
            proof {
                if pre && r is Ok {
                    let w = nodes_of(self.node_store);
                    assert(child == children@.last());
                    assert(can_append(v, child, (depth - 1) as nat, rem as nat));
                    assert(leaf_appended(v, w, child, (depth - 1) as nat, rem as nat, size as nat));
                    assert(v.0.contains_key(*id));
                    assert(node_in(w, *id) == node_in(v, *id));
                    assert(spine(w, *id, depth as nat) == Some((index as nat, size as nat))) by {
                        assert((n as int - 1) * (per_child as int) + (rem as int) == index as int)
                            by (nonlinear_arith)
                            requires
                                index as int == (n as int - 1) * (per_child as int) + (fc as int) + 1,
                                rem as int == fc as int + 1,
                        ;
                    }
                    assert(descend(w, *id, depth as nat, index as nat) == descend(
                        w,
                        child,
                        (depth - 1) as nat,
                        rem as nat,
                    ));
                    assert forall|y: BlockId|
                        (node_in(v, y) matches Some(NodeView::Inner(dy, _)) && dy > depth) implies #[trigger] node_in(w, y)
                        == node_in(v, y) by {
                        assert(node_in(v, y) matches Some(NodeView::Inner(dy, _)) && dy > depth - 1);
                    }
                }
            }
            return r;
        }
        if digit != n as u64 || n >= k {
            return Err(StoreError::NodeFormat);
        }
        let new_child = self.new_chain(depth - 1, size)?;
        let ghost w1 = nodes_of(self.node_store);
        let ghost old_children = children@;
        children.push(new_child);
        let r = self.node_store.overwrite_with_inner(id, depth, children.as_slice());
        proof {
            if pre && r is Ok {
                let w = nodes_of(self.node_store);
                let c = new_child;
                let l = descend(w1, c, (depth - 1) as nat, 0)->0;
                crate::node::lemma_inner_round_trip(block_size, depth, children@);
                assert(v.0.contains_key(*id));
                assert(node_in(w1, *id) == node_in(v, *id));
                assert(node_in(w, *id) == Some(NodeView::Inner(depth, children@)));
                assert(children@.subrange(0, n as int) =~= old_children);
                assert(agrees_except(w1, w, *id));
                assert(extends_children(w1, w, *id));
                lemma_keeps_agrees(v, w1, c);
                assert forall|x: BlockId, e: nat, j: nat|
                    descend(v, x, e, j) is Some implies #[trigger] descend(w, x, e, j) == descend(
                    v,
                    x,
                    e,
                    j,
                ) by {
                    lemma_descend_grow(v, w1, c, x, e, j);
                    lemma_descend_grow(w1, w, *id, x, e, j);
                }
                assert forall|y: BlockId|
                    (node_in(v, y) matches Some(NodeView::Leaf(_))) implies #[trigger] node_in(w, y)
                    == node_in(v, y) by {
                    assert(v.0.contains_key(y));
                }
                assert forall|y: BlockId|
                    (node_in(v, y) matches Some(NodeView::Inner(dy, _)) && dy > depth) implies #[trigger] node_in(w, y)
                    == node_in(v, y) by {
                    assert(v.0.contains_key(y));
                }
                lemma_spine_below(w1, w, *id, c, (depth - 1) as nat);
                assert(rem == 0);
                assert(spine(w, *id, depth as nat) == Some((index as nat, size as nat))) by {
                    vstd::arithmetic::div_mod::lemma_fundamental_div_mod(
                        index as int,
                        per_child as int,
                    );
                    assert((n as nat) * per_child + 0 == index) by (nonlinear_arith)
                        requires
                            index as int == (per_child as int) * (index as int / per_child as int)
                                + (index as int % per_child as int),
                            index as int / per_child as int == n as int,
                            index as int % per_child as int == 0,
                    ;
                    assert(children@.last() == c);
                }
                lemma_descend_below(w1, w, *id, c, (depth - 1) as nat, 0);
                assert(children@[n as int] == c);
                assert(descend(w, *id, depth as nat, index as nat) == Some(l));
                assert(node_in(w, l) == node_in(w1, l));
            }
        }
        r
    }

    /// Appends a leaf of `size` zero bytes to the tree rooted at `root`,
    /// which has `leaves_before` leaves. Where the tree is full, the root's
    /// content moves to a new node that becomes the only child of the root,
    /// one level deeper.
    fn append_leaf(&mut self, root: &BlockId, leaves_before: u64, size: u64) -> (r: Result<
        (),
        StoreError,
    >)
        requires
            old(self).wf(),
            size <= old(self).spec_node_store().spec_max_leaf_payload(),
        ensures
            final(self).wf(),
            final(self).spec_node_store().spec_node_block_size() == old(self).spec_node_store().spec_node_block_size(),
            old(self).spec_node_store().spec_reliable() ==> final(self).spec_node_store().spec_reliable(),
            ({
                let v0 = nodes_of(old(self).spec_node_store());
                let w = nodes_of(final(self).spec_node_store());
                let d0 = tree_depth(v0, *root);
                (r is Ok && tree_ok(v0, *root) && leaves_before == spine_full(v0, *root, d0) + 1
                    && spine_last(v0, *root, d0) == leaf_capacity_of(v0)) ==> tree_ok(w, *root)
                    && spine(w, *root, tree_depth(w, *root)) == Some(
                    (leaves_before as nat, size as nat),
                ) && blob_bytes(w, *root) == blob_bytes(v0, *root) + Seq::new(
                    size as nat,
                    |i: int| 0u8,
                ) && tree_depth(w, *root) == if leaves_before == spec_pow(fanout_of(v0), d0) {
                    d0 + 1
                } else {
                    d0
                }
            }),
            ({
                let v0 = nodes_of(old(self).spec_node_store());
                let d0 = tree_depth(v0, *root);
                (old(self).spec_node_store().spec_reliable() && tree_ok(v0, *root) && tree_fits(v0, *root)
                    && leaves_before == spine_full(v0, *root, d0) + 1 && spine_last(v0, *root, d0)
                    == leaf_capacity_of(v0)) ==> r is Ok || r == Err::<(), StoreError>(
                    StoreError::IdSpaceExhausted,
                )
            }),
    {
        proof {
            self.node_store.lemma_block_size_bounds();
        }
        let ghost v0 = nodes_of(self.node_store);
        let ghost block_size = self.node_store.spec_node_block_size();
        let ghost d0 = tree_depth(v0, *root);
        let ghost pre = tree_ok(v0, *root) && leaves_before == spine_full(v0, *root, d0) + 1
            && spine_last(v0, *root, d0) == leaf_capacity_of(v0);
        let ghost good = pre && old(self).spec_node_store().spec_reliable() && tree_fits(v0, *root);
        let k = self.node_store.max_children();
        let m = self.node_store.virtual_block_size_bytes() as usize;
        proof {
            if good {
                assert(spine(v0, *root, d0) is Some);
                assert(self.node_store.node_at(*root) is Some);
            }
        }
        let depth = self.depth(root)?;
        let full = match checked_pow(k as u64, depth) {
            Some(cap) => leaves_before >= cap,
            None => false,
        };
        proof {
            if pre {
                let f = spine_full(v0, *root, d0);
                lemma_descend_reaches_leaf(v0, *root, d0, f);
                lemma_pow_positive(fanout_of(v0), d0);
                if d0 == 0 {
                    assert(f == 0);
                }
                assert forall|i: nat| i <= f implies (#[trigger] descend(v0, *root, d0, i)) is Some
                    && v0.0.contains_key(descend(v0, *root, d0, i)->0) by {
                    lemma_descend_reaches_leaf(v0, *root, d0, i);
                }
            }
        }
        let mut d = depth;
        if full {
            if depth == 255 {
                return Err(StoreError::Overflow);
            }
            let moved = match self.load_existing(root)? {
                NodeContent::Leaf(data) => {
                    if data.len() > m {
                        return Err(StoreError::NodeFormat);
                    }
                    let created = self.node_store.create_new_leaf(data.as_slice())?;
                    proof {
                        lemma_leaf_round_trip(block_size, data@);
                    }
                    created
                },
                NodeContent::Inner(nd, c) => {
                    if nd == 0 || c.len() == 0 || c.len() > k {
                        return Err(StoreError::NodeFormat);
                    }
                    let created = self.node_store.create_new_inner(nd, c.as_slice())?;
                    proof {
                        crate::node::lemma_inner_round_trip(block_size, nd, c@);
                    }
                    created
                },
            };
            let ghost w1 = nodes_of(self.node_store);
            let one: Vec<BlockId> = vec![moved];
            self.node_store.overwrite_with_inner(root, depth + 1, one.as_slice())?;
            d = depth + 1;
            proof {
                if pre {
                    let w2 = nodes_of(self.node_store);
                    crate::node::lemma_inner_round_trip(block_size, (depth + 1) as u8, one@);
                    assert(one@ == seq![moved]);
                    assert(node_in(w1, moved) == node_in(v0, *root));
                    assert(moved != *root);
                    assert(node_in(w2, moved) == node_in(w1, moved));
                    assert(agrees_except(v0, w2, *root));
                    lemma_raised_root(v0, w2, *root, moved);
                }
            }
        }
        if d == 0 {
            return Err(StoreError::NodeFormat);
        }
        let ghost w2 = nodes_of(self.node_store);
        proof {
            if pre {
                if !full {
                    assert(d == d0);
                    assert(leaves_before < spec_pow(fanout_of(v0), d0));
                }
                assert(can_append(w2, *root, d as nat, leaves_before as nat));
            }
            if good {
                if full {
                    assert(spec_pow(fanout_of(v0), (d - 1) as nat) == leaves_before);
                } else {
                    lemma_pow_mono(fanout_of(v0), (d - 1) as nat, d0);
                }
            }
        }
        let r = self.insert_leaf_under(root, d, leaves_before, size);
        proof {
            if pre && r is Ok {
                let w = nodes_of(self.node_store);
                let f = spine_full(v0, *root, d0);
                if !full {
                    assert(d == d0);
                    assert(leaves_before < spec_pow(fanout_of(v0), d0));
                }
                assert(can_append(w2, *root, d as nat, leaves_before as nat));
                lemma_appended_tree(v0, w2, w, *root, d as nat, size as nat);
            }
        }
        r
    }

    /// Sets the number of bytes of the blob held by the tree rooted at
    /// `root`, where that keeps or adds leaves: pads it with zero bytes, or
    /// cuts its last leaf. Fails where fewer leaves would be needed.
    fn grow_num_bytes(&mut self, root: &BlockId, new_num_bytes: u64) -> (r: Result<
        (),
        StoreError,
    >)
        requires
            old(self).wf(),
        ensures
            final(self).wf(),
            final(self).spec_node_store().spec_node_block_size() == old(self).spec_node_store().spec_node_block_size(),
            old(self).spec_node_store().spec_reliable() ==> final(self).spec_node_store().spec_reliable(),
            ({
                let v0 = nodes_of(old(self).spec_node_store());
                let v1 = nodes_of(final(self).spec_node_store());
                (r is Ok && tree_ok(v0, *root) && leaves_for_bytes(
                    new_num_bytes as nat,
                    leaf_capacity_of(v0),
                ) >= spine_full(v0, *root, tree_depth(v0, *root)) + 1) ==> tree_ok(v1, *root)
                    && blob_bytes(v1, *root) == resized(blob_bytes(v0, *root), new_num_bytes as nat)
                    && (tree_compact(v0, *root) ==> tree_compact(v1, *root))
            }),
            ({
                let v0 = nodes_of(old(self).spec_node_store());
                let v1 = nodes_of(final(self).spec_node_store());
                let t = leaves_for_bytes(new_num_bytes as nat, leaf_capacity_of(v0));
                (old(self).spec_node_store().spec_reliable() && tree_ok(v0, *root) && tree_compact(v0, *root)
                    && tree_fits(v0, *root) && t >= spine_full(v0, *root, tree_depth(v0, *root)) + 1
                    && t * fanout_of(v0) <= u64::MAX) ==> (r is Ok || r == Err::<(), StoreError>(
                    StoreError::IdSpaceExhausted,
                )) && (r is Ok ==> tree_fits(v1, *root))
            }),
    {
        proof {
            self.node_store.lemma_block_size_bounds();
        }
        let ghost block_size = self.node_store.spec_node_block_size();
        let ghost v0 = nodes_of(self.node_store);
        let m = self.node_store.virtual_block_size_bytes() as u64;
        let (full, _, _) = self.spine_info(root)?;
        let cur_leaves = match full.checked_add(1) {
            Some(n) => n,
            None => {
                return Err(StoreError::Overflow);
            },
        };
        let target_leaves = num_leaves_for_bytes(new_num_bytes, m);
        let ghost q: int = (target_leaves - 1) as int;
        assert(q * m <= new_num_bytes && new_num_bytes - q * m <= m) by (nonlinear_arith)
            requires
                m >= 1,
                new_num_bytes == 0 ==> q == 0,
                new_num_bytes > 0 ==> q == (new_num_bytes - 1) as int / m as int,
        ;
        let target_last = new_num_bytes - (target_leaves - 1) * m;
        if target_leaves > cur_leaves {
            self.set_last_leaf_size(root, m)?;
            let ghost exact = tree_ok(v0, *root);
            let ghost blob0 = blob_bytes(v0, *root);
            let ghost mut last_size: nat = m as nat;
            let ghost compact0 = exact && tree_compact(v0, *root);
            let ghost k = fanout_of(v0);
            let ghost gg = compact0 && old(self).spec_node_store().spec_reliable() && tree_fits(v0, *root)
                && (target_leaves as nat) * k <= u64::MAX;
            proof {
                if gg {
                    assert((cur_leaves as nat) * m <= ((target_leaves - 1) as nat) * m) by (nonlinear_arith)
                        requires
                            cur_leaves <= target_leaves - 1,
                    ;
                    assert(((cur_leaves - 1) as nat) * m + m == (cur_leaves as nat) * m) by (nonlinear_arith)
                        requires
                            cur_leaves >= 1,
                    ;
                }
            }
            proof {
                if exact {
                    lemma_blob_ends_with_last_leaf(v0, *root);
                    lemma_spine_is_last_position(v0, *root, tree_depth(v0, *root));
                    lemma_leaf_round_trip(block_size, leaf_payload(v0, *root, full as nat));
                    assert((full as nat) * m + m == ((cur_leaves - 1) as nat) * m + m);
                }
            }
            let mut leaves = cur_leaves;
            while leaves < target_leaves
                invariant
                    self.wf(),
                    self.node_store.spec_node_block_size() == block_size,
                    old(self).spec_node_store().spec_reliable() ==> self.node_store.spec_reliable(),
                    block_size == old(self).spec_node_store().spec_node_block_size(),
                    40 <= block_size <= u32::MAX,
                    m == self.node_store.spec_max_leaf_payload(),
                    m == leaf_capacity_of(v0),
                    1 <= m,
                    target_last <= m,
                    cur_leaves <= leaves <= target_leaves,
                    leaves >= 1,
                    v0 == nodes_of(old(self).spec_node_store()),
                    blob0 == blob_bytes(v0, *root),
                    exact ==> tree_ok(nodes_of(self.node_store), *root),
                    exact ==> spine(
                        nodes_of(self.node_store),
                        *root,
                        tree_depth(nodes_of(self.node_store), *root),
                    ) == Some(((leaves - 1) as nat, last_size)),
                    exact && leaves < target_leaves ==> last_size == m,
                    exact && leaves == target_leaves ==> last_size == target_last,
                    exact ==> ((leaves - 1) as nat) * (m as nat) + last_size >= blob0.len(),
                    exact ==> blob_bytes(nodes_of(self.node_store), *root) == resized(
                        blob0,
                        ((leaves - 1) as nat) * (m as nat) + last_size,
                    ),
                    compact0 == (exact && tree_compact(v0, *root)),
                    k == fanout_of(v0),
                    k >= 2,
                    compact0 ==> (tree_depth(nodes_of(self.node_store), *root) > 0 ==> leaves > spec_pow(
                        k,
                        (tree_depth(nodes_of(self.node_store), *root) - 1) as nat,
                    )),
                    gg == (compact0 && old(self).spec_node_store().spec_reliable() && tree_fits(v0, *root)
                        && (target_leaves as nat) * k <= u64::MAX),
                    gg ==> self.node_store.spec_reliable(),
                    gg ==> tree_fits(nodes_of(self.node_store), *root),
                    ((target_leaves - 1) as nat) * (m as nat) + target_last == new_num_bytes,
                    target_leaves == leaves_for_bytes(new_num_bytes as nat, m as nat),
                    exact == tree_ok(v0, *root),
                decreases target_leaves - leaves,
            {
                let size = if leaves + 1 == target_leaves {
                    target_last
                } else {
                    m
                };
                let ghost before_len: nat = ((leaves - 1) as nat) * (m as nat) + last_size;
                let ghost vc = nodes_of(self.node_store);
                let ghost dc = tree_depth(vc, *root);
                proof {
                    if exact {
                        lemma_descend_reaches_leaf(vc, *root, dc, spine_full(vc, *root, dc));
                        lemma_pow_positive(k, dc);
                    }
                }
                self.append_leaf(root, leaves, size)?;
                proof {
                    if gg {
                        let w = nodes_of(self.node_store);
                        let dn = tree_depth(w, *root);
                        if dn > 0 {
                            let pp = spec_pow(k, (dn - 1) as nat);
                            assert(spec_pow(k, dn as nat) == k * pp);
                            assert(k * pp <= u64::MAX) by (nonlinear_arith)
                                requires
                                    pp < leaves + 1,
                                    leaves + 1 <= target_leaves,
                                    (target_leaves as nat) * k <= u64::MAX,
                                    k >= 2,
                            ;
                        }
                        lemma_small_exponent(k, dn as nat);
                        let nl: nat = (leaves as nat) * (m as nat) + size as nat;
                        assert(nl <= new_num_bytes) by (nonlinear_arith)
                            requires
                                leaves + 1 <= target_leaves,
                                leaves + 1 < target_leaves ==> size == m,
                                leaves + 1 == target_leaves ==> size == target_last,
                                ((target_leaves - 1) as nat) * (m as nat) + target_last == new_num_bytes,
                                nl == (leaves as nat) * (m as nat) + size as nat,
                                m >= 1,
                        ;
                    }
                    if compact0 {
                        let dn = tree_depth(nodes_of(self.node_store), *root);
                        if leaves == spec_pow(k, dc) {
                            assert(dn == dc + 1);
                        } else {
                            assert(dn == dc);
                            if dc == 0 {
                                assert(spec_pow(k, 0) == 1);
                            }
                        }
                    }
                    if exact {
                        lemma_resized_then_zeros(blob0, before_len, size as nat);
                        assert(((leaves - 1) as nat) * m + m == (leaves as nat) * m) by (
                        nonlinear_arith)
                            requires
                                leaves >= 1,
                        ;
                        last_size = size as nat;
                    }
                }
                leaves = leaves + 1;
            }
            proof {
                if exact {
                    assert(((target_leaves - 1) as nat) * m + target_last == new_num_bytes);
                }
            }
            proof {
                if compact0 {
                    let v1 = nodes_of(self.node_store);
                    assert(blob_bytes(v1, *root).len() == new_num_bytes);
                    assert(tree_compact(v1, *root));
                }
            }
        } else if target_leaves == cur_leaves {
            self.set_last_leaf_size(root, target_last)?;
            proof {
                if tree_ok(v0, *root) && tree_compact(v0, *root) {
                    let v1 = nodes_of(self.node_store);
                    assert(resized(blob_bytes(v0, *root), (full as nat) * leaf_capacity_of(v0) + target_last as nat).len()
                        == new_num_bytes);
                    assert(tree_compact(v1, *root));
                }
            }
        } else {
            return Err(StoreError::NodeFormat);
        }
        Ok(())
    }

    /// Writes `data` into the blob held by the tree rooted at `root`, from
    /// byte `offset` on, growing the blob first where it is too short.
    pub fn write_bytes(&mut self, root: &BlockId, offset: u64, data: &[u8]) -> (r: Result<
        (),
        StoreError,
    >)
        requires
            old(self).wf(),
        ensures
            final(self).wf(),
            final(self).spec_node_store().spec_node_block_size() == old(self).spec_node_store().spec_node_block_size(),
            old(self).spec_node_store().spec_reliable() ==> final(self).spec_node_store().spec_reliable(),
            ({
                let v0 = nodes_of(old(self).spec_node_store());
                let v1 = nodes_of(final(self).spec_node_store());
                (r is Ok && tree_ok(v0, *root)) ==> tree_ok(v1, *root) && blob_bytes(v1, *root)
                    == write_result(blob_bytes(v0, *root), offset as nat, data@)
                    && (tree_compact(v0, *root) ==> tree_compact(v1, *root))
            }),
            offset + data@.len() > u64::MAX ==> r == Err::<(), StoreError>(StoreError::Overflow),
            old(self).spec_node_store().spec_reliable() && tree_ok(nodes_of(old(self).spec_node_store()), *root)
                && tree_fits(nodes_of(old(self).spec_node_store()), *root) && offset + data@.len()
                <= blob_bytes(nodes_of(old(self).spec_node_store()), *root).len() ==> r is Ok,
            ({
                let v0 = nodes_of(old(self).spec_node_store());
                (old(self).spec_node_store().spec_reliable() && tree_ok(v0, *root) && tree_compact(v0, *root)
                    && tree_fits(v0, *root) && offset + data@.len() <= u64::MAX && leaves_for_bytes(
                    (offset + data@.len()) as nat,
                    leaf_capacity_of(v0),
                ) * fanout_of(v0) <= u64::MAX) ==> r is Ok || r == Err::<(), StoreError>(
                    StoreError::IdSpaceExhausted,
                )
            }),
    {
        proof {
            self.node_store.lemma_block_size_bounds();
        }
        let ghost v0 = nodes_of(self.node_store);
        let ghost blob0 = blob_bytes(v0, *root);
        let len = data.len() as u64;
        let end = match offset.checked_add(len) {
            Some(e) => e,
            None => {
                return Err(StoreError::Overflow);
            },
        };
        let total = self.num_bytes(root)?;
        let ghost exact = tree_ok(v0, *root);
        let ghost good = exact && old(self).spec_node_store().spec_reliable() && tree_compact(v0, *root)
            && tree_fits(v0, *root) && leaves_for_bytes(end as nat, leaf_capacity_of(v0)) * fanout_of(v0)
            <= u64::MAX;
        if end > total {
            proof {
                if exact {
                    let d = tree_depth(v0, *root);
                    let f = spine_full(v0, *root, d);
                    let mm = leaf_capacity_of(v0);
                    assert(f * mm <= end - 1);
                    vstd::arithmetic::div_mod::lemma_div_is_ordered(
                        (f * mm) as int,
                        end - 1,
                        mm as int,
                    );
                    vstd::arithmetic::div_mod::lemma_div_multiples_vanish(f as int, mm as int);
                    assert((f * mm) as int / mm as int == f) by {
                        vstd::arithmetic::mul::lemma_mul_is_commutative(f as int, mm as int);
                    }
                    assert(leaves_for_bytes(end as nat, mm) >= f + 1);
                }
            }
            self.grow_num_bytes(root, end)?;
        }
        let ghost vm = nodes_of(self.node_store);
        proof {
            if good {
                if end <= total {
                    assert(blob_bytes(vm, *root).len() == total);
                } else {
                    assert(blob_bytes(vm, *root) == resized(blob0, end as nat));
                }
            }
        }
        let r = self.overwrite_range(root, offset, data);
        proof {
            if exact && r is Ok {
                if end > total {
                    assert(blob_bytes(vm, *root) == resized(blob0, end as nat));
                    assert(write_result(blob_bytes(vm, *root), offset as nat, data@) =~= write_result(
                        blob0,
                        offset as nat,
                        data@,
                    ));
                }
            }
        }
        r
    }

    /// Overwrites the bytes of the blob held by the tree rooted at `root`
    /// from `offset` on with `data`. Fails where the blob is too short.
    fn overwrite_range(&mut self, root: &BlockId, offset: u64, data: &[u8]) -> (r: Result<
        (),
        StoreError,
    >)
        requires
            old(self).wf(),
        ensures
            final(self).wf(),
            final(self).spec_node_store().spec_node_block_size() == old(self).spec_node_store().spec_node_block_size(),
            old(self).spec_node_store().spec_reliable() ==> final(self).spec_node_store().spec_reliable(),
            ({
                let v0 = nodes_of(old(self).spec_node_store());
                let v1 = nodes_of(final(self).spec_node_store());
                (r is Ok && tree_ok(v0, *root)) ==> tree_ok(v1, *root) && blob_bytes(v1, *root)
                    == write_result(blob_bytes(v0, *root), offset as nat, data@)
                    && (tree_compact(v0, *root) ==> tree_compact(v1, *root))
            }),
            old(self).spec_node_store().spec_reliable() && tree_ok(nodes_of(old(self).spec_node_store()), *root)
                && tree_fits(nodes_of(old(self).spec_node_store()), *root) && offset + data@.len()
                <= blob_bytes(nodes_of(old(self).spec_node_store()), *root).len() ==> r is Ok,
    {
        proof {
            self.node_store.lemma_block_size_bounds();
        }
        let ghost block_size = self.node_store.spec_node_block_size();
        let ghost v0 = nodes_of(self.node_store);
        let ghost blob0 = blob_bytes(v0, *root);
        let len = data.len() as u64;
        let end = match offset.checked_add(len) {
            Some(e) => e,
            None => {
                return Err(StoreError::Overflow);
            },
        };
        let total = self.num_bytes(root)?;
        let ghost exact = tree_ok(v0, *root);
        let ghost good = exact && old(self).spec_node_store().spec_reliable() && tree_fits(v0, *root);
        if end > total {
            return Err(StoreError::NodeFormat);
        }
        let ghost vm = nodes_of(self.node_store);
        let ghost dm = tree_depth(vm, *root);
        let ghost blobm = blob_bytes(vm, *root);
        let ghost totalm: nat = if end > total {
            end as nat
        } else {
            total as nat
        };
        proof {
            if exact {
                assert(blobm == resized(blob0, totalm)) by {
                    if end <= total {
                        assert(resized(blob0, totalm) =~= blob0);
                    }
                }
                assert(tree_ok(vm, *root));
                assert(tree_num_bytes(vm, *root) is Some);
                assert(blobm.len() == tree_num_bytes(vm, *root)->0);
                assert(tree_num_bytes(vm, *root) == Some(totalm));
            }
        }
        assert(vm == v0);
        let m = self.node_store.virtual_block_size_bytes() as u64;
        let mut pos = offset;
        while pos < end
            invariant
                self.wf(),
                self.node_store.spec_node_block_size() == block_size,
                old(self).spec_node_store().spec_reliable() ==> self.node_store.spec_reliable(),
                block_size == old(self).spec_node_store().spec_node_block_size(),
                40 <= block_size <= u32::MAX,
                m == self.node_store.spec_max_leaf_payload(),
                1 <= m <= u32::MAX,
                offset <= pos <= end,
                end == offset + data@.len(),
                blobm == blob_bytes(vm, *root),
                dm == tree_depth(vm, *root),
                exact ==> tree_ok(vm, *root),
                good == (exact && old(self).spec_node_store().spec_reliable() && tree_fits(vm, *root)),
                vm.1 == block_size,
                vm == v0,
                v0 == nodes_of(old(self).spec_node_store()),
                exact == tree_ok(v0, *root),
                good ==> self.node_store.spec_reliable(),
                exact ==> tree_num_bytes(vm, *root) == Some(totalm),
                exact ==> end <= totalm,
                exact ==> tree_ok(nodes_of(self.node_store), *root),
                exact ==> tree_depth(nodes_of(self.node_store), *root) == dm,
                exact ==> spine(nodes_of(self.node_store), *root, dm) == spine(vm, *root, dm),
                exact ==> blob_bytes(nodes_of(self.node_store), *root).len() == totalm,
                exact ==> forall|o: int|
                    0 <= o < totalm ==> #[trigger] blob_bytes(nodes_of(self.node_store), *root)[o]
                        == if offset <= o < pos {
                        data@[o - offset]
                    } else {
                        blobm[o]
                    },
            decreases end - pos,
        {
            let ghost v = nodes_of(self.node_store);
            let leaf_index = pos / m;
            let within = pos % m;
            proof {
                if good {
                    let (f, l) = spine(v, *root, dm)->0;
                    lemma_spine_is_last_position(v, *root, dm);
                    vstd::arithmetic::div_mod::lemma_fundamental_div_mod(pos as int, m as int);
                    assert(blob_bytes(v, *root).len() == f * m + l);
                    lemma_position_bound(pos as int, f as int, l as int, m as int);
                    assert(tree_fits(v, *root));
                    assert(tree_ok(v, *root));
                    assert(self.node_store.spec_reliable());
                    assert(leaf_index as nat <= spine_full(v, *root, tree_depth(v, *root)));
                }
            }

            let (leaf_id, leaf_data) = self.leaf_at(root, leaf_index)?;
            let room = m - within;
            let n = if end - pos < room {
                end - pos
            } else {
                room
            };
            let stop = within + n;
            assert(stop <= m);
            let ghost p = leaf_data@;
            proof {
                if exact {
                    let (f, l) = spine(v, *root, dm)->0;
                    vstd::arithmetic::div_mod::lemma_fundamental_div_mod(pos as int, m as int);
                    lemma_position_bound(pos as int, f as int, l as int, m as int);
                    assert(l <= m) by {
                        lemma_leaf_round_trip(block_size, p);
                    }
                    if leaf_index < f {
                        assert(leaf_payload(v, *root, leaf_index as nat).len() == m);
                    } else {
                        assert(leaf_payload(v, *root, f).len() == l);
                        assert(within + n <= l) by (nonlinear_arith)
                            requires
                                pos == m * f + within,
                                pos + n <= end,
                                end <= totalm,
                                totalm == f * m + l,
                        ;
                    }
                    assert(p == leaf_payload(v, *root, leaf_index as nat));
                    assert(stop <= p.len());
                    assert(p.len() <= m);
                }
            }
            let mut leaf_data = leaf_data;
            if (leaf_data.len() as u64) < stop {
                leaf_data.resize(stop as usize, 0u8);
            }
            if leaf_data.len() as u64 > m {
                return Err(StoreError::NodeFormat);
            }
            let data_len = data.len();
            assert(pos - offset < data_len);
            let src_start = (pos - offset) as usize;
            assert(src_start == pos - offset);
            copy_into(&mut leaf_data, within as usize, data, src_start, n as usize);
            let ghost updated = leaf_data@;
            self.node_store.overwrite_with_leaf(&leaf_id, leaf_data.as_slice())?;
            proof {
                if exact {
                    let (f, l) = spine(v, *root, dm)->0;
                    lemma_position_bound(pos as int, f as int, l as int, m as int);
                    assert(nodes_of(self.node_store) == with_leaf(v, leaf_id, updated));
                    lemma_write_leaf_step(v, *root, leaf_index as nat, leaf_id, p, updated);
                    let w = nodes_of(self.node_store);
                    vstd::arithmetic::div_mod::lemma_fundamental_div_mod(pos as int, m as int);
                    assert forall|o: int| 0 <= o < totalm implies #[trigger] blob_bytes(w, *root)[o]
                        == if offset <= o < pos + n {
                        data@[o - offset]
                    } else {
                        blobm[o]
                    } by {
                        vstd::arithmetic::div_mod::lemma_fundamental_div_mod(o, m as int);
                        if pos <= o < pos + n {
                            lemma_same_leaf(pos as int, o - pos, m as int);
                            assert(updated[within + (o - pos)] == data@[(pos - offset) + (o - pos)]);
                        } else if o / (m as int) == leaf_index {
                            assert(o % (m as int) < p.len()) by {
                                if leaf_index < f {
                                    assert(leaf_payload(v, *root, leaf_index as nat).len() == m);
                                } else {
                                    assert(leaf_payload(v, *root, f).len() == l);
                                    assert(o % (m as int) < l) by (nonlinear_arith)
                                        requires
                                            o == (m as int) * f + o % (m as int),
                                            o < totalm,
                                            totalm == f * m + l,
                                    ;
                                }
                            }
                            assert(!(within <= o % (m as int) < within + n));
                            assert(updated[o % (m as int)] == p[o % (m as int)]);
                            assert(blob_bytes(v, *root)[o] == p[o % (m as int)]);
                        }
                    }
                }
            }
            pos = pos + n;
        }
        proof {
            if exact {
                let w = nodes_of(self.node_store);
                let n0 = totalm as int;
                assert(blob_bytes(w, *root) =~= blobm.subrange(0, offset as int) + data@
                    + blobm.subrange(offset + data@.len(), n0));
                assert(blob0.len() == total);
            }
        }
        proof {
            if exact {
                let w = nodes_of(self.node_store);
                assert(tree_depth(w, *root) == dm);
                assert(spine_full(w, *root, dm) == spine_full(vm, *root, dm));
                assert(blob_bytes(w, *root).len() == blob_bytes(vm, *root).len());
            }
        }
        Ok(())
    }

    /// Sets the number of bytes of the blob held by the tree rooted at
    /// `root`: pads it with zero bytes, or cuts it. Where leaves are no
    /// longer needed, the tree is built anew from the bytes kept, and every
    /// old node but the root is removed.
    pub fn resize_num_bytes(&mut self, root: &BlockId, new_num_bytes: u64) -> (r: Result<
        (),
        StoreError,
    >)
        requires
            old(self).wf(),
        ensures
            final(self).wf(),
            final(self).spec_node_store().spec_node_block_size() == old(self).spec_node_store().spec_node_block_size(),
            old(self).spec_node_store().spec_reliable() ==> final(self).spec_node_store().spec_reliable(),
            ({
                let v0 = nodes_of(old(self).spec_node_store());
                let v1 = nodes_of(final(self).spec_node_store());
                (r is Ok && tree_ok(v0, *root)) ==> tree_ok(v1, *root) && blob_bytes(v1, *root)
                    == resized(blob_bytes(v0, *root), new_num_bytes as nat)
                    && (tree_compact(v0, *root) ==> tree_compact(v1, *root))
            }),
            ({
                let v0 = nodes_of(old(self).spec_node_store());
                let d0 = tree_depth(v0, *root);
                let t = leaves_for_bytes(new_num_bytes as nat, leaf_capacity_of(v0));
                (old(self).spec_node_store().spec_reliable() && tree_ok(v0, *root) && tree_compact(v0, *root)
                    && tree_fits(v0, *root) && t * fanout_of(v0) <= u64::MAX && (t >= spine_full(
                    v0,
                    *root,
                    d0,
                ) + 1 || sound(v0, *root, d0))) ==> r is Ok || r == Err::<(), StoreError>(
                    StoreError::IdSpaceExhausted,
                )
            }),
    {
        proof {
            self.node_store.lemma_block_size_bounds();
        }
        let ghost v0 = nodes_of(self.node_store);
        let ghost blob0 = blob_bytes(v0, *root);
        let ghost block_size = self.node_store.spec_node_block_size();
        let ghost exact = tree_ok(v0, *root);
        let ghost good = exact && old(self).spec_node_store().spec_reliable() && tree_compact(v0, *root)
            && tree_fits(v0, *root) && leaves_for_bytes(new_num_bytes as nat, leaf_capacity_of(v0))
            * fanout_of(v0) <= u64::MAX;
        let m = self.node_store.virtual_block_size_bytes() as u64;
        let (full, _, _) = self.spine_info(root)?;
        let target_leaves = num_leaves_for_bytes(new_num_bytes, m);
        if target_leaves > full {
            return self.grow_num_bytes(root, new_num_bytes);
        }
        proof {
            if exact {
                let d = tree_depth(v0, *root);
                let l = spine_last(v0, *root, d);
                lemma_blob_ends_with_last_leaf(v0, *root);
                if new_num_bytes > 0 {
                    let x: int = (new_num_bytes - 1) as int;
                    let mi: int = m as int;
                    vstd::arithmetic::div_mod::lemma_fundamental_div_mod(x, mi);
                    vstd::arithmetic::div_mod::lemma_mod_pos_bound(x, mi);
                    let q: int = x / mi;
                    let rr: int = x % mi;
                    assert(new_num_bytes <= full * m) by (nonlinear_arith)
                        requires
                            x == mi * q + rr,
                            q + 1 <= full,
                            0 <= rr,
                            rr < mi,
                            x == new_num_bytes - 1,
                            mi == m,
                    ;
                }
                assert(full * m <= blob0.len()) by (nonlinear_arith)
                    requires
                        blob0.len() == full * m + leaf_payload(v0, *root, full as nat).len(),
                ;
            }
        }
        proof {
            if good {
                assert(spine(v0, *root, tree_depth(v0, *root)) is Some);
                assert(self.node_store.node_at(*root) is Some);
            }
        }
        let depth = self.depth(root)?;
        let kept = self.read_bytes(root, 0, new_num_bytes)?;
        proof {
            if exact {
                assert(kept@ =~= resized(blob0, new_num_bytes as nat));
            }
        }
        let mut ids: Vec<BlockId> = Vec::new();
        self.collect_nodes(root, depth, &mut ids)?;
        let empty: Vec<u8> = Vec::new();
        self.node_store.overwrite_with_leaf(root, empty.as_slice())?;
        proof {
            lemma_leaf_round_trip(block_size, empty@);
        }
        let mut i: usize = 0;
        while i < ids.len()
            invariant
                self.wf(),
                self.node_store.spec_node_block_size() == block_size,
                old(self).spec_node_store().spec_reliable() ==> self.node_store.spec_reliable(),
                block_size == old(self).spec_node_store().spec_node_block_size(),
                40 <= block_size <= u32::MAX,
                node_in(nodes_of(self.node_store), *root) == Some(NodeView::Leaf(Seq::<u8>::empty())),
            decreases ids@.len() - i,
        {
            if ids[i] != *root {
                let _ = self.node_store.remove(&ids[i])?;
            }
            i = i + 1;
        }
        proof {
            lemma_empty_leaf_tree(nodes_of(self.node_store), *root);
            let ve = nodes_of(self.node_store);
            assert(spine(ve, *root, 0) == Some((0nat, 0nat)));
            assert(tree_compact(ve, *root));
            assert(leaves_for_bytes(new_num_bytes as nat, leaf_capacity_of(nodes_of(self.node_store)))
                >= 1);
            assert(tree_depth(ve, *root) == 0);
            assert(spec_pow(fanout_of(ve), 0) == 1);
            assert(tree_fits(ve, *root));
        }
        self.grow_num_bytes(root, new_num_bytes)?;
        let ghost vz = nodes_of(self.node_store);
        proof {
            if good {
                assert(blob_bytes(vz, *root).len() == new_num_bytes);
            }
        }
        let r = self.overwrite_range(root, 0, kept.as_slice());
        proof {
            if exact && r is Ok {
                assert(resized(Seq::<u8>::empty(), new_num_bytes as nat).len() == new_num_bytes);
                assert(write_result(blob_bytes(vz, *root), 0, kept@) =~= kept@);
            }
        }
        r
    }

    /// The ids of all nodes under the node `id` of depth `depth`, `id`
    /// included, appended to `out`. Fails where one of them is missing or
    /// malformed.
    fn collect_nodes(&mut self, id: &BlockId, depth: u8, out: &mut Vec<BlockId>) -> (r: Result<
        (),
        StoreError,
    >)
        requires
            old(self).wf(),
        ensures
            final(self).wf(),
            final(self).spec_node_store().blocks() == old(self).spec_node_store().blocks(),
            final(self).spec_node_store().spec_node_block_size() == old(self).spec_node_store().spec_node_block_size(),
            old(self).spec_node_store().spec_reliable() ==> final(self).spec_node_store().spec_reliable(),
            r is Ok ==> final(out)@.to_set() == old(out)@.to_set() + Set::new(
                |y: BlockId| in_tree(nodes_of(old(self).spec_node_store()), *id, depth as nat, y),
            ),
            old(self).spec_node_store().spec_reliable() && sound(nodes_of(old(self).spec_node_store()), *id, depth as nat)
                ==> r is Ok,
        decreases depth,
    {
        let ghost before = self.node_store;
        let ghost v = nodes_of(before);
        let ghost out0 = out@;
        out.push(*id);
        proof {
            out0.lemma_push_to_set_commute(*id);
        }
        match self.load_existing(id)? {
            NodeContent::Leaf(_) => {
                if depth != 0 {
                    return Err(StoreError::NodeFormat);
                }
                assert(out@.to_set() =~= out0.to_set() + Set::new(
                    |y: BlockId| in_tree(v, *id, depth as nat, y),
                ));
                Ok(())
            },
            NodeContent::Inner(d, children) => {
                if d != depth || depth == 0 {
                    return Err(StoreError::NodeFormat);
                }
                let mut i: usize = 0;
                while i < children.len()
                    invariant
                        self.wf(),
                        before == old(self).spec_node_store(),
                        v == nodes_of(before),
                        out0 == old(out)@,
                        self.node_store.blocks() == before.blocks(),
                        self.node_store.spec_node_block_size() == before.spec_node_block_size(),
                        old(self).spec_node_store().spec_reliable() ==> self.node_store.spec_reliable(),
                        depth >= 1,
                        i <= children@.len(),
                        node_in(v, *id) == Some(NodeView::Inner(depth, children@)),
                        old(self).spec_node_store().spec_reliable() && sound(v, *id, depth as nat)
                            ==> self.node_store.spec_reliable() && children_sound(
                            v,
                            children@,
                            children@.len(),
                            (depth - 1) as nat,
                        ),
                        out@.to_set() == out0.to_set().insert(*id) + Set::new(
                            |y: BlockId| in_children(v, children@, i as nat, (depth - 1) as nat, y),
                        ),
                    decreases children@.len() - i,
                {
                    let ghost prev = out@;
                    proof {
                        if old(self).spec_node_store().spec_reliable() && sound(v, *id, depth as nat) {
                            lemma_children_sound(v, children@, children@.len(), (depth - 1) as nat, i as int);
                        }
                    }
                    self.collect_nodes(&children[i], depth - 1, out)?;
                    proof {
                        assert(out@.to_set() =~= out0.to_set().insert(*id) + Set::new(
                            |y: BlockId|
                                in_children(v, children@, (i + 1) as nat, (depth - 1) as nat, y),
                        ));
                    }
                    i = i + 1;
                }
                proof {
                    assert(out@.to_set() =~= out0.to_set() + Set::new(
                        |y: BlockId| in_tree(v, *id, depth as nat, y),
                    ));
                }
                Ok(())
            },
        }
    }

    /// Removes every node of the tree rooted at `root`, and nothing else.
    /// Where no block is stored at `root`, removes nothing.
    pub fn remove_tree_by_id(&mut self, root: &BlockId) -> (r: Result<RemoveResult, StoreError>)
        requires
            old(self).wf(),
        ensures
            final(self).wf(),
            final(self).spec_node_store().spec_node_block_size() == old(self).spec_node_store().spec_node_block_size(),
            old(self).spec_node_store().spec_reliable() ==> final(self).spec_node_store().spec_reliable(),
            r matches Ok(RemoveResult::NotRemovedBecauseItDoesntExist) ==> !old(self).spec_node_store().blocks().contains_key(*root)
                && final(self).spec_node_store().blocks() == old(self).spec_node_store().blocks(),
            r matches Ok(RemoveResult::SuccessfullyRemoved) ==> final(self).spec_node_store().blocks()
                == old(self).spec_node_store().blocks().remove_keys(
                tree_nodes(nodes_of(old(self).spec_node_store()), *root),
            ) && tree_nodes(nodes_of(old(self).spec_node_store()), *root).contains(*root),
            old(self).spec_node_store().spec_reliable() && sound(
                nodes_of(old(self).spec_node_store()),
                *root,
                tree_depth(nodes_of(old(self).spec_node_store()), *root),
            ) ==> r == Ok::<RemoveResult, StoreError>(RemoveResult::SuccessfullyRemoved),
    {
        let ghost v = nodes_of(self.node_store);
        let ghost b0 = self.node_store.blocks();
        if !self.load_tree(root)? {
            if self.node_store.load(root)?.is_none() {
                return Ok(RemoveResult::NotRemovedBecauseItDoesntExist);
            }
            return Err(StoreError::NodeFormat);
        }
        let depth = self.depth(root)?;
        let mut ids: Vec<BlockId> = Vec::new();
        self.collect_nodes(root, depth, &mut ids)?;
        proof {
            assert(Seq::<BlockId>::empty().to_set() =~= Set::<BlockId>::empty());
            assert(ids@.to_set() =~= tree_nodes(v, *root));
            assert(in_tree(v, *root, depth as nat, *root));
        }
        let ghost block_size = self.node_store.spec_node_block_size();
        let mut i: usize = 0;
        while i < ids.len()
            invariant
                self.wf(),
                self.node_store.spec_node_block_size() == block_size,
                old(self).spec_node_store().spec_reliable() ==> self.node_store.spec_reliable(),
                block_size == old(self).spec_node_store().spec_node_block_size(),
                i <= ids@.len(),
                self.node_store.blocks() == b0.remove_keys(ids@.subrange(0, i as int).to_set()),
                old(self).spec_node_store().spec_reliable() ==> self.node_store.spec_reliable(),
            decreases ids@.len() - i,
        {
            let ghost prev = self.node_store.blocks();
            let _ = self.node_store.remove(&ids[i])?;
            proof {
                ids@.subrange(0, i as int).lemma_push_to_set_commute(ids@[i as int]);
                assert(ids@.subrange(0, i + 1) =~= ids@.subrange(0, i as int).push(ids@[i as int]));
                assert(self.node_store.blocks() =~= b0.remove_keys(
                    ids@.subrange(0, i + 1).to_set(),
                ));
            }
            i = i + 1;
        }
        proof {
            assert(ids@.subrange(0, i as int) =~= ids@);
        }
        Ok(RemoveResult::SuccessfullyRemoved)
    }
}

} // verus!
