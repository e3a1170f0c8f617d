//! What releasing blocks does to the list over several calls.
use vstd::prelude::*;
use crate::block_list::{
    allocation, blocks_of, first_fit, fits, kept, live, node_end, payload_of, release, released,
    released_count, some_gap_fits, sorted, wf, Block, HEADER_SIZE,
};

verus! {

/// The list left after releasing each of `xs` in turn.
pub open spec fn kept_after(blocks: Seq<Block>, xs: Seq<nat>) -> Seq<Block>
    decreases xs.len(),
{
    if xs.len() == 0 {
        blocks
    } else {
        kept_after(kept(blocks, xs[0]), xs.drop_first())
    }
}

proof fn lemma_kept_all(blocks: Seq<Block>, data: nat)
    requires
        forall|i: int| 0 <= i < blocks.len() ==> !released(#[trigger] blocks[i], data),
    ensures
        kept(blocks, data) == blocks,
    decreases blocks.len(),
{
    reveal(Seq::filter);
    if blocks.len() > 0 {
        lemma_kept_all(blocks.drop_last(), data);
        assert(blocks.drop_last().push(blocks.last()) =~= blocks);
    }
}

proof fn lemma_kept_shorter(blocks: Seq<Block>, data: nat, i: int)
    requires
        0 <= i < blocks.len(),
        released(blocks[i], data),
    ensures
        kept(blocks, data).len() < blocks.len(),
    decreases blocks.len(),
{
    reveal(Seq::filter);
    blocks.drop_last().lemma_filter_len(|b: Block| !released(b, data));
    if i < blocks.len() - 1 {
        lemma_kept_shorter(blocks.drop_last(), data, i);
    }
}

proof fn lemma_kept_member(blocks: Seq<Block>, data: nat, j: int)
    requires
        0 <= j < kept(blocks, data).len(),
    ensures
        blocks.contains(kept(blocks, data)[j]),
        !released(kept(blocks, data)[j], data),
{
    let k = kept(blocks, data);
    blocks.lemma_filter_pred(|b: Block| !released(b, data), j);
    assert(k.contains(k[j]));
    blocks.lemma_filter_contains_rev(|b: Block| !released(b, data), k[j]);
}

/// Releasing the payload offset of a block of a list releases at least one block;
/// releasing the same offset again releases nothing and leaves the list as it is.
pub proof fn lemma_release_once(blocks: Seq<Block>, i: int)
    requires
        sorted(blocks),
        live(blocks),
        0 <= i < blocks.len(),
    ensures
        released_count(blocks, payload_of(blocks[i])) > 0,
        released_count(kept(blocks, payload_of(blocks[i])), payload_of(blocks[i])) == 0,
        kept(kept(blocks, payload_of(blocks[i])), payload_of(blocks[i])) == kept(
            blocks,
            payload_of(blocks[i]),
        ),
{
    let x = payload_of(blocks[i]);
    lemma_kept_shorter(blocks, x, i);
    let k = kept(blocks, x);
    assert forall|j: int| 0 <= j < k.len() implies !released(#[trigger] k[j], x) by {
        lemma_kept_member(blocks, x, j);
    }
    lemma_kept_all(k, x);
}

/// After releasing a parent, releasing a block grouped under it releases
/// nothing, provided no block is grouped under that child in turn.
pub proof fn lemma_release_parent_takes_child(blocks: Seq<Block>, parent: nat, c: int)
    requires
        sorted(blocks),
        0 <= c < blocks.len(),
        blocks[c].parent == parent,
        forall|m: int| 0 <= m < blocks.len() ==> #[trigger] blocks[m].parent != payload_of(blocks[c]),
    ensures
        released_count(kept(blocks, parent), payload_of(blocks[c])) == 0,
{
    let child = payload_of(blocks[c]);
    let k = kept(blocks, parent);
    assert forall|j: int| 0 <= j < k.len() implies !released(#[trigger] k[j], child) by {
        lemma_kept_member(blocks, parent, j);
        let m = choose|m: int| 0 <= m < blocks.len() && blocks[m] == k[j];
        assert(blocks[m].parent != child);
        if k[j].size > 0 && payload_of(k[j]) == child {
            if m < c {
                assert(payload_of(blocks[m]) < payload_of(blocks[c]));
            } else if m > c {
                assert(payload_of(blocks[m]) > payload_of(blocks[c]));
            }
        }
    }
    lemma_kept_all(k, child);
}

/// Releasing a child leaves its parent: releasing the parent afterwards still
/// releases it, provided the parent is not itself grouped under the child.
pub proof fn lemma_release_child_keeps_parent(blocks: Seq<Block>, p: int, c: int)
    requires
        sorted(blocks),
        0 <= p < blocks.len(),
        0 <= c < blocks.len(),
        live(blocks),
        blocks[c].parent == payload_of(blocks[p]),
        blocks[p].parent != payload_of(blocks[c]),
    ensures
        released_count(kept(blocks, payload_of(blocks[c])), payload_of(blocks[p])) > 0,
{
    let child = payload_of(blocks[c]);
    let k = kept(blocks, child);
    if p < c {
        assert(payload_of(blocks[p]) < payload_of(blocks[c]));
    } else if p > c {
        assert(payload_of(blocks[p]) > payload_of(blocks[c]));
    } else {
        assert(blocks[c].parent == child);
    }
    assert(!released(blocks[p], child));
    blocks.lemma_filter_contains(|b: Block| !released(b, child), p);
    let j = choose|j: int| 0 <= j < k.len() && k[j] == blocks[p];
    lemma_kept_shorter(k, payload_of(blocks[p]), j);
}

proof fn lemma_kept_after_member(blocks: Seq<Block>, xs: Seq<nat>, e: Block)
    requires
        kept_after(blocks, xs).contains(e),
    ensures
        blocks.contains(e),
        e.size > 0 ==> !xs.contains(payload_of(e)),
    decreases xs.len(),
{
    if xs.len() > 0 {
        let k = kept(blocks, xs[0]);
        lemma_kept_after_member(k, xs.drop_first(), e);
        let j = choose|j: int| 0 <= j < k.len() && k[j] == e;
        lemma_kept_member(blocks, xs[0], j);
        if e.size > 0 && xs.contains(payload_of(e)) {
            let n = choose|n: int| 0 <= n < xs.len() && xs[n] == payload_of(e);
            if n > 0 {
                assert(xs.drop_first()[n - 1] == xs[n]);
            }
        }
    }
}

/// Releasing, in any order, the payload offsets of all blocks of a list
/// leaves the empty list, in which a request of `size`
/// bytes finds room exactly when the whole region holds the head sentinel, one
/// more header and `size` bytes.
pub proof fn lemma_release_all(blocks: Seq<Block>, xs: Seq<nat>, len: nat)
    requires
        live(blocks),
        forall|i: int| 0 <= i < blocks.len() ==> xs.contains(payload_of(#[trigger] blocks[i])),
    ensures
        kept_after(blocks, xs) == Seq::<Block>::empty(),
        forall|size: nat|
            some_gap_fits(kept_after(blocks, xs), len, size) <==> 2 * HEADER_SIZE + size <= len,
{
    let r = kept_after(blocks, xs);
    if r.len() > 0 {
        assert(r.contains(r[0]));
        lemma_kept_after_member(blocks, xs, r[0]);
        let i = choose|i: int| 0 <= i < blocks.len() && blocks[i] == r[0];
        assert(xs.contains(payload_of(blocks[i])));
    }
    assert(r =~= Seq::<Block>::empty());
    assert forall|size: nat|
        some_gap_fits(r, len, size) <==> 2 * HEADER_SIZE + size <= len by {
        assert(node_end(r, 0) == HEADER_SIZE);
        if 2 * HEADER_SIZE + size <= len {
            assert(fits(r, len, 0, size));
        }
    }
}

/// Releasing each of `xs` in turn, region after region, leaves the list that
/// `kept_after` gives.
pub proof fn lemma_release_chain(rs: Seq<Seq<u8>>, xs: Seq<nat>)
    requires
        rs.len() == xs.len() + 1,
        wf(rs[0]),
        forall|m: int| 0 <= m < xs.len() ==> release(#[trigger] rs[m], rs[m + 1], xs[m]),
    ensures
        blocks_of(rs.last()) == kept_after(blocks_of(rs[0]), xs),
    decreases xs.len(),
{
    if xs.len() > 0 {
        assert(release(rs[0], rs[1], xs[0]));
        let rest = rs.drop_first();
        assert forall|m: int| 0 <= m < xs.drop_first().len() implies release(
            #[trigger] rest[m],
            rest[m + 1],
            xs.drop_first()[m],
        ) by {
            assert(release(rs[m + 1], rs[m + 2], xs[m + 1]));
        }
        lemma_release_chain(rest, xs.drop_first());
        assert(rest.last() == rs.last());
    }
}

/// A region whose list is empty, as a fresh zero-filled one is, grants a
/// request of `size` bytes exactly when it is nonzero and the region holds the
/// head sentinel, one more header and `size` bytes; the payload then starts
/// right after those two headers.
pub proof fn lemma_empty_region_allocation(
    s: Seq<u8>,
    t: Seq<u8>,
    size: nat,
    parent: nat,
    r: Option<usize>,
)
    requires
        wf(s),
        blocks_of(s) == Seq::<Block>::empty(),
        allocation(s, t, size, parent, r),
    ensures
        r is Some <==> size > 0 && 2 * HEADER_SIZE + size <= s.len(),
        r is Some ==> r == Some((2 * HEADER_SIZE) as usize),
{
    let e = Seq::<Block>::empty();
    assert(node_end(e, 0) == HEADER_SIZE);
    if 2 * HEADER_SIZE + size <= s.len() {
        assert(fits(e, s.len(), 0, size));
    }
    if size > 0 && r is Some {
        assert(fits(e, s.len(), 0, size));
        assert(first_fit(e, s.len(), size) == Some(0nat));
    }
}

} // verus!
