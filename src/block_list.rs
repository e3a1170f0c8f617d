//! The block list of a guarded region, as a sequence of blocks, and the way the
//! region's bytes encode it.
//!
//! A header is three words: the payload size, the offset of the next header
//! (0 for none) and the parent payload offset (0 for none). The head sentinel
//! occupies offset 0 and is never handed out, so no real header or payload has
//! offset 0.
use vstd::prelude::*;
use crate::layout::word;

verus! {

/// Bytes of one block header.
pub const HEADER_SIZE: usize = 24;

/// A block of the list other than the head sentinel.
pub struct Block {
    /// Offset of the block's header in the guarded region.
    pub offset: nat,
    /// Bytes of payload after the header.
    pub size: nat,
    /// Payload offset of the block it is grouped under, or 0.
    pub parent: nat,
}

/// Offset of the block's payload, the value handed to callers.
pub open spec fn payload_of(b: Block) -> nat {
    (b.offset + HEADER_SIZE) as nat
}

/// Offset just past the block's payload.
pub open spec fn end_of(b: Block) -> nat {
    (b.offset + HEADER_SIZE + b.size) as nat
}

/// The `next` link of node `k`: node 0 is the head sentinel, node `k` the
/// block `blocks[k - 1]`; its successor is `blocks[k]`, if any.
pub open spec fn next_of(blocks: Seq<Block>, k: int) -> nat {
    if 0 <= k < blocks.len() {
        blocks[k].offset
    } else {
        0
    }
}

/// Blocks lie after the head sentinel, in increasing order, without overlap.
pub open spec fn sorted(blocks: Seq<Block>) -> bool {
    &&& forall|i: int| 0 <= i < blocks.len() ==> HEADER_SIZE <= #[trigger] blocks[i].offset
    &&& forall|i: int, j: int|
        0 <= i < j < blocks.len() ==> end_of(#[trigger] blocks[i]) <= #[trigger] blocks[j].offset
}

/// Every block holds at least one byte of payload.
pub open spec fn live(blocks: Seq<Block>) -> bool {
    forall|i: int| 0 <= i < blocks.len() ==> (#[trigger] blocks[i]).size > 0
}

/// The header of `blocks[i]` is stored at its offset.
pub open spec fn header_holds(s: Seq<u8>, blocks: Seq<Block>, i: int) -> bool {
    let o = blocks[i].offset as int;
    &&& word(s, o) as nat == blocks[i].size
    &&& word(s, o + 8) as nat == next_of(blocks, i + 1)
    &&& word(s, o + 16) as nat == blocks[i].parent
}

/// The bytes `s` of a guarded region hold exactly the list `blocks`.
pub open spec fn encodes(s: Seq<u8>, blocks: Seq<Block>) -> bool {
    &&& HEADER_SIZE <= s.len()
    &&& sorted(blocks)
    &&& live(blocks)
    &&& forall|i: int| 0 <= i < blocks.len() ==> end_of(#[trigger] blocks[i]) <= s.len()
    &&& word(s, 0) == 0
    &&& word(s, 8) as nat == next_of(blocks, 0)
    &&& forall|i: int| 0 <= i < blocks.len() ==> #[trigger] header_holds(s, blocks, i)
}

/// The guarded region holds a well-formed block list.
pub open spec fn wf(s: Seq<u8>) -> bool {
    exists|blocks: Seq<Block>| encodes(s, blocks)
}

/// The block list that a well-formed region holds.
pub open spec fn blocks_of(s: Seq<u8>) -> Seq<Block> {
    choose|blocks: Seq<Block>| encodes(s, blocks)
}

/// Bytes hold at most one list.
pub proof fn lemma_encodes_unique(s: Seq<u8>, a: Seq<Block>, b: Seq<Block>)
    requires
        encodes(s, a),
        encodes(s, b),
    ensures
        a == b,
{
    assert forall|i: int| 0 <= i < a.len() implies i < b.len() && a[i] == b[i] by {
        lemma_prefix_agrees(s, a, b, i);
    }
    if b.len() > a.len() {
        lemma_prefix_agrees(s, b, a, a.len() as int);
    }
    if a.len() > b.len() {
        lemma_prefix_agrees(s, a, b, b.len() as int);
    }
    assert(a =~= b);
}

proof fn lemma_prefix_agrees(s: Seq<u8>, a: Seq<Block>, b: Seq<Block>, i: int)
    requires
        encodes(s, a),
        encodes(s, b),
        0 <= i < a.len(),
    ensures
        i < b.len() && a[i] == b[i],
    decreases i,
{
    if i == 0 {
        if b.len() == 0 {
            assert(a[0].offset >= HEADER_SIZE);
        }
    } else {
        lemma_prefix_agrees(s, a, b, i - 1);
        assert(header_holds(s, a, i - 1));
        assert(header_holds(s, b, i - 1));
        if b.len() <= i {
            assert(a[i].offset >= HEADER_SIZE);
        }
    }
    if i < b.len() {
        assert(header_holds(s, a, i));
        assert(header_holds(s, b, i));
    }
}

/// The region's list, when it is well-formed, is the one its bytes encode.
pub proof fn lemma_blocks_of(s: Seq<u8>, blocks: Seq<Block>)
    requires
        encodes(s, blocks),
    ensures
        wf(s),
        blocks_of(s) == blocks,
{
    lemma_encodes_unique(s, blocks, blocks_of(s));
}

/// Offset just past node `k`: the head sentinel for 0, `blocks[k - 1]` after.
pub open spec fn node_end(blocks: Seq<Block>, k: int) -> nat {
    if k == 0 {
        HEADER_SIZE as nat
    } else {
        end_of(blocks[k - 1])
    }
}

/// Offset of the `next` word of node `k`.
pub open spec fn link_slot(blocks: Seq<Block>, k: int) -> nat {
    if k == 0 {
        8
    } else {
        (blocks[k - 1].offset + 8) as nat
    }
}

/// Where the free gap after node `k` ends: the next block, or the region's end.
pub open spec fn gap_limit(blocks: Seq<Block>, len: nat, k: int) -> nat {
    if k < blocks.len() {
        blocks[k].offset
    } else {
        len
    }
}

/// The gap after node `k` has room for a header and `size` bytes.
pub open spec fn fits(blocks: Seq<Block>, len: nat, k: int, size: nat) -> bool {
    node_end(blocks, k) + HEADER_SIZE + size <= gap_limit(blocks, len, k)
}

/// Some gap of the list has room for a header and `size` bytes.
pub open spec fn some_gap_fits(blocks: Seq<Block>, len: nat, size: nat) -> bool {
    exists|k: int| 0 <= k <= blocks.len() && fits(blocks, len, k, size)
}

/// The first node, from `k` on, whose gap has room for `size` bytes.
pub open spec fn first_fit_from(blocks: Seq<Block>, len: nat, size: nat, k: int) -> Option<nat>
    decreases blocks.len() + 1 - k,
{
    if k < 0 || k > blocks.len() {
        None
    } else if fits(blocks, len, k, size) {
        Some(k as nat)
    } else {
        first_fit_from(blocks, len, size, k + 1)
    }
}

/// The first node, in list order, whose gap has room for `size` bytes.
pub open spec fn first_fit(blocks: Seq<Block>, len: nat, size: nat) -> Option<nat> {
    first_fit_from(blocks, len, size, 0)
}

/// The list after a block of `size` bytes grouped under `parent` is placed in
/// the gap after node `k`.
pub open spec fn placed(blocks: Seq<Block>, k: int, size: nat, parent: nat) -> Seq<Block> {
    blocks.insert(k, Block { offset: node_end(blocks, k), size, parent })
}

/// Writing the new header and relinking its predecessor encodes the list with
/// the block placed.
pub proof fn lemma_place(
    s: Seq<u8>,
    t: Seq<u8>,
    blocks: Seq<Block>,
    k: int,
    size: nat,
    parent: nat,
)
    requires
        encodes(s, blocks),
        0 <= k <= blocks.len(),
        fits(blocks, s.len(), k, size),
        size > 0,
        t.len() == s.len(),
        word(t, node_end(blocks, k) as int) as nat == size,
        word(t, node_end(blocks, k) as int + 8) as nat == next_of(blocks, k),
        word(t, node_end(blocks, k) as int + 16) as nat == parent,
        word(t, link_slot(blocks, k) as int) as nat == node_end(blocks, k),
        forall|j: int|
            0 <= j < s.len() && !(node_end(blocks, k) <= j < node_end(blocks, k) + HEADER_SIZE)
                && !(link_slot(blocks, k) <= j < link_slot(blocks, k) + 8) ==> t[j] == s[j],
    ensures
        encodes(t, placed(blocks, k, size, parent)),
{
    let nb = placed(blocks, k, size, parent);
    let e = node_end(blocks, k) as int;
    let slot = link_slot(blocks, k) as int;
    let nblk = Block { offset: e as nat, size, parent };
    assert(nb.len() == blocks.len() + 1);
    assert forall|i: int| 0 <= i < nb.len() implies #[trigger] nb[i] == if i < k {
        blocks[i]
    } else if i == k {
        nblk
    } else {
        blocks[i - 1]
    } by {}
    if k > 0 {
        assert(HEADER_SIZE <= blocks[k - 1].offset);
    }
    assert(e >= HEADER_SIZE);
    assert forall|i: int, j: int| 0 <= i < j < nb.len() implies end_of(#[trigger] nb[i])
        <= #[trigger] nb[j].offset by {
        if j == k {
            if k > 0 && i < k - 1 {
                assert(end_of(blocks[i]) <= blocks[k - 1].offset);
            }
        } else if i == k {
            if j > k + 1 {
                assert(end_of(blocks[k]) <= blocks[j - 1].offset);
            }
        } else if i < k && j > k {
            if i < k - 1 {
                assert(end_of(blocks[i]) <= blocks[k - 1].offset);
            }
            if j > k + 1 {
                assert(end_of(blocks[k]) <= blocks[j - 1].offset);
            }
        }
    }
    assert forall|i: int| 0 <= i < nb.len() implies end_of(#[trigger] nb[i]) <= t.len() by {}
    crate::layout::lemma_word_frame(s, t, 0);
    if k > 0 {
        crate::layout::lemma_word_frame(s, t, 8);
    }
    assert forall|i: int| 0 <= i < nb.len() implies #[trigger] header_holds(t, nb, i) by {
        if i != k {
            let bi = if i < k { i } else { i - 1 };
            let o = blocks[bi].offset as int;
            assert(header_holds(s, blocks, bi));
            if bi < k - 1 {
                assert(end_of(blocks[bi]) <= blocks[k - 1].offset);
            }
            if bi > k {
                assert(end_of(blocks[k]) <= blocks[bi].offset);
            }
            if bi >= k && k > 0 {
                assert(end_of(blocks[k - 1]) <= blocks[bi].offset);
            }
            crate::layout::lemma_word_frame(s, t, o);
            crate::layout::lemma_word_frame(s, t, o + 16);
            if bi != k - 1 {
                crate::layout::lemma_word_frame(s, t, o + 8);
            }
        }
    }
}

/// What allocating `size` bytes under `parent` does to region `s`, giving `t`
/// and returning `r`: for a nonzero size, the first gap with room gets a new
/// block and `r` is its payload offset; for size 0, or with no such gap, the
/// region is untouched and `r` is `None`.
pub open spec fn allocation(s: Seq<u8>, t: Seq<u8>, size: nat, parent: nat, r: Option<usize>) -> bool {
    let blocks = blocks_of(s);
    &&& wf(t)
    &&& sorted(blocks_of(t))
    &&& live(blocks_of(t))
    &&& t.len() == s.len()
    &&& (r is Some <==> size > 0 && some_gap_fits(blocks, s.len(), size))
    &&& (r is Some ==> blocks_of(t).len() == blocks.len() + 1)
    &&& if size == 0 {
        r is None && t == s
    } else {
        allocation_in_first_fit(s, t, size, parent, r)
    }
}

/// Allocation of a nonzero size: the block goes in the first gap with room.
pub open spec fn allocation_in_first_fit(
    s: Seq<u8>,
    t: Seq<u8>,
    size: nat,
    parent: nat,
    r: Option<usize>,
) -> bool {
    let blocks = blocks_of(s);
    match first_fit(blocks, s.len(), size) {
        Some(k) => {
            &&& r == Some((node_end(blocks, k as int) + HEADER_SIZE) as usize)
            &&& blocks_of(t) == placed(blocks, k as int, size, parent)
            &&& forall|j: int|
                0 <= j < s.len() && !(node_end(blocks, k as int) <= j < node_end(blocks, k as int)
                    + HEADER_SIZE) && !(link_slot(blocks, k as int) <= j < link_slot(
                    blocks,
                    k as int,
                ) + 8) ==> t[j] == s[j]
        },
        None => r is None && t == s,
    }
}

/// A block that releasing `data` removes: a live block whose payload is `data`
/// or whose parent is `data`.
pub open spec fn released(b: Block, data: nat) -> bool {
    b.size > 0 && (payload_of(b) == data || b.parent == data)
}

/// The blocks that releasing `data` leaves, in list order.
pub open spec fn kept(blocks: Seq<Block>, data: nat) -> Seq<Block> {
    blocks.filter(|b: Block| !released(b, data))
}

/// How many blocks releasing `data` removes.
pub open spec fn released_count(blocks: Seq<Block>, data: nat) -> nat {
    (blocks.len() - kept(blocks, data).len()) as nat
}

/// Relinking the predecessor of `blocks[k]` past it, whatever then becomes of
/// the block's own bytes, encodes the list without it.
pub proof fn lemma_unlink(s: Seq<u8>, t: Seq<u8>, blocks: Seq<Block>, k: int)
    requires
        encodes(s, blocks),
        0 <= k < blocks.len(),
        t.len() == s.len(),
        word(t, link_slot(blocks, k) as int) as nat == next_of(blocks, k + 1),
        forall|j: int|
            0 <= j < s.len() && !(link_slot(blocks, k) <= j < link_slot(blocks, k) + 8) && !(
            blocks[k].offset <= j < end_of(blocks[k])) ==> t[j] == s[j],
    ensures
        encodes(t, blocks.remove(k)),
{
    let nb = blocks.remove(k);
    assert forall|i: int| 0 <= i < nb.len() implies #[trigger] nb[i] == if i < k {
        blocks[i]
    } else {
        blocks[i + 1]
    } by {}
    assert forall|i: int, j: int| 0 <= i < j < nb.len() implies end_of(#[trigger] nb[i])
        <= #[trigger] nb[j].offset by {
        if i < k && j >= k {
            assert(end_of(blocks[i]) <= blocks[j + 1].offset);
        }
    }
    assert forall|i: int| 0 <= i < nb.len() implies end_of(#[trigger] nb[i]) <= t.len() by {
        if i >= k {
            assert(end_of(blocks[i + 1]) <= s.len());
        }
    }
    assert(HEADER_SIZE <= blocks[k].offset);
    if k > 0 {
        assert(HEADER_SIZE <= blocks[k - 1].offset);
        assert(end_of(blocks[k - 1]) <= blocks[k].offset);
    }
    crate::layout::lemma_word_frame(s, t, 0);
    if k > 0 {
        crate::layout::lemma_word_frame(s, t, 8);
    }
    assert forall|i: int| 0 <= i < nb.len() implies #[trigger] header_holds(t, nb, i) by {
        let bi = if i < k { i } else { i + 1 };
        let o = blocks[bi].offset as int;
        assert(header_holds(s, blocks, bi));
        if bi < k - 1 {
            assert(end_of(blocks[bi]) <= blocks[k - 1].offset);
        }
        if bi < k {
            assert(end_of(blocks[bi]) <= blocks[k].offset);
        }
        if bi > k {
            assert(end_of(blocks[k]) <= blocks[bi].offset);
            if k > 0 {
                assert(end_of(blocks[k - 1]) <= blocks[bi].offset);
            }
        }
        crate::layout::lemma_word_frame(s, t, o);
        crate::layout::lemma_word_frame(s, t, o + 16);
        if bi != k - 1 {
            crate::layout::lemma_word_frame(s, t, o + 8);
        }
    }
}

/// Byte `j` lies neither in a block that releasing `data` removes, nor in the
/// `next` word of the head sentinel or of a block that stays.
pub open spec fn outside_release(blocks: Seq<Block>, data: nat, j: int) -> bool {
    &&& !(8 <= j < 16)
    &&& forall|i: int|
        0 <= i < blocks.len() ==> {
            &&& !(released(#[trigger] blocks[i], data) && blocks[i].offset <= j < end_of(
                blocks[i],
            ))
            &&& !(!released(blocks[i], data) && blocks[i].offset + 8 <= j < blocks[i].offset
                + 16)
        }
}

/// What releasing `data` does to region `s`, giving `t`: every released block
/// leaves the list and its bytes are cleared, the others stay in order with
/// their payload bytes untouched, and no byte changes but those of released
/// blocks and the `next` words that are relinked. Releasing nothing changes
/// no byte.
pub open spec fn release(s: Seq<u8>, t: Seq<u8>, data: nat) -> bool {
    &&& wf(t)
    &&& t.len() == s.len()
    &&& blocks_of(t) == kept(blocks_of(s), data)
    &&& (released_count(blocks_of(s), data) == 0 ==> t == s)
    &&& forall|j: int|
        0 <= j < s.len() && outside_release(blocks_of(s), data, j) ==> #[trigger] t[j] == s[j]
    &&& forall|i: int, j: int|
        #![trigger blocks_of(s)[i], t[j]]
        0 <= i < blocks_of(s).len() && released(blocks_of(s)[i], data) && blocks_of(s)[i].offset
            <= j < end_of(blocks_of(s)[i]) ==> t[j] == 0
    &&& forall|i: int, j: int|
        #![trigger blocks_of(s)[i], t[j]]
        0 <= i < blocks_of(s).len() && !released(blocks_of(s)[i], data) && payload_of(
            blocks_of(s)[i],
        ) <= j < end_of(blocks_of(s)[i]) ==> t[j] == s[j]
}

/// Each block's offset is at least its place in the list.
pub proof fn lemma_offset_bound(blocks: Seq<Block>, i: int)
    requires
        sorted(blocks),
        0 <= i < blocks.len(),
    ensures
        blocks[i].offset >= i,
    decreases i,
{
    if i > 0 {
        lemma_offset_bound(blocks, i - 1);
        assert(end_of(blocks[i - 1]) <= blocks[i].offset);
    }
}

/// A zero-filled region with room for the head sentinel holds the empty list.
pub proof fn lemma_zeroed_is_empty(s: Seq<u8>)
    requires
        HEADER_SIZE <= s.len(),
        forall|j: int| 0 <= j < s.len() ==> s[j] == 0,
    ensures
        wf(s),
        blocks_of(s) == Seq::<Block>::empty(),
{
    crate::layout::lemma_word_zero(s, 0);
    crate::layout::lemma_word_zero(s, 8);
    lemma_blocks_of(s, Seq::<Block>::empty());
}

} // verus!
