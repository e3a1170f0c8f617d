//! First-fit allocation and grouped release over the block list of a guarded region.
use vstd::prelude::*;
use crate::block_list::{
    allocation, blocks_of, encodes, end_of, first_fit, first_fit_from, fits, gap_limit,
    header_holds, kept, lemma_blocks_of, lemma_offset_bound, lemma_place, lemma_unlink, link_slot,
    next_of, node_end, outside_release, payload_of, placed, release, released, released_count, some_gap_fits, wf,
    Block, HEADER_SIZE,
};
use crate::layout::{read_word, write_word, word};
use crate::mutex::{MemoryGuard, MemoryMutex};

verus! {

/// Allocation over the guarded region that a held lock gives access to.
pub struct Allocator<'a> {
    memory: MemoryGuard<'a>,
}

impl<'a> Allocator<'a> {
    /// The smallest guarded region that holds a block list: the head sentinel.
    pub const MIN_SIZE: usize = HEADER_SIZE;

    /// Length of the guarded region this allocator works on.
    pub closed spec fn region_size(&self) -> nat {
        self.memory.region_size()
    }

    /// An allocator over the region of `memory`.
    pub fn new(memory: MemoryGuard<'a>) -> (r: Self)
        ensures
            r.region_size() == memory.region_size(),
    {
        Allocator { memory }
    }

    /// Allocates `size` bytes in the first gap with room for them and a header.
    /// Returns the payload offset, or `None` when `size` is 0 or no gap has room.
    pub fn allocate(&self, region: &mut [u8], size: usize) -> (r: Option<usize>)
        requires
            old(region)@.len() == self.region_size(),
            wf(old(region)@),
        ensures
            allocation(old(region)@, final(region)@, size as nat, 0, r),
    {
        allocate(region, size, 0)
    }

    /// Releases the block whose payload offset is `data` and every block grouped
    /// under it. Returns whether any block was released.
    pub fn deallocate(&self, region: &mut [u8], data: usize) -> (r: bool)
        requires
            old(region)@.len() == self.region_size(),
            wf(old(region)@),
        ensures
            release(old(region)@, final(region)@, data as nat),
            r == (released_count(blocks_of(old(region)@), data as nat) > 0),
    {
        deallocate(region, data) > 0
    }

    /// Allocates `size` bytes as `allocate` does, grouped under the block whose
    /// payload offset is `parent`: releasing that block releases this one too.
    pub fn allocate_more(&self, region: &mut [u8], size: usize, parent: usize) -> (r: Option<usize>)
        requires
            old(region)@.len() == self.region_size(),
            wf(old(region)@),
        ensures
            allocation(old(region)@, final(region)@, size as nat, parent as nat, r),
    {
        allocate(region, size, parent)
    }
}

/// Whether an arena of `size` bytes has room for the lock word and the head
/// sentinel, the least that can hold a block list.
pub fn arena_size_ok(size: usize) -> (r: bool)
    ensures
        r == (size >= MemoryMutex::SIZE + Allocator::MIN_SIZE),
{
    size >= MemoryMutex::SIZE + Allocator::MIN_SIZE
}

/// First-fit walk of the list from the head sentinel.
fn allocate(region: &mut [u8], size: usize, parent: usize) -> (r: Option<usize>)
    requires
        wf(old(region)@),
    ensures
        allocation(old(region)@, final(region)@, size as nat, parent as nat, r),
{
    let ghost s = region@;
    let ghost blocks = blocks_of(s);
    if size == 0 {
        return None;
    }
    let len = region.len();
    let mut cur: usize = 0;
    let ghost mut k: int = 0;
    loop
        invariant
            region@ == s,
            s == old(region)@,
            size > 0,
            len == s.len(),
            encodes(s, blocks),
            blocks == blocks_of(s),
            0 <= k <= blocks.len(),
            cur == if k == 0 {
                0
            } else {
                blocks[k - 1].offset
            },
            forall|j: int| 0 <= j < k ==> !fits(blocks, len as nat, j, size as nat),
            first_fit(blocks, len as nat, size as nat) == first_fit_from(
                blocks,
                len as nat,
                size as nat,
                k,
            ),
        decreases blocks.len() - k,
    {
        proof {
            if k > 0 {
                assert(header_holds(s, blocks, k - 1));
                assert(end_of(blocks[k - 1]) <= len);
            }
            if k < blocks.len() {
                assert(end_of(blocks[k]) <= len);
                if k > 0 {
                    assert(end_of(blocks[k - 1]) <= blocks[k].offset);
                }
            }
        }
        let cur_size = read_word(region, cur) as usize;
        let next = read_word(region, cur + 8) as usize;
        let end = cur + HEADER_SIZE + cur_size;
        assert(end == node_end(blocks, k));
        let limit = if next == 0 {
            len
        } else {
            next
        };
        assert(limit == gap_limit(blocks, len as nat, k));
        if limit - end >= HEADER_SIZE && limit - end - HEADER_SIZE >= size {
            write_header(region, end, size, next, parent);
            write_word(region, cur + 8, end as u64);
            proof {
                lemma_allocation_placed(s, region@, k, size as nat, parent as nat);
            }
            return Some(end + HEADER_SIZE);
        }
        if next == 0 {
            proof {
                lemma_allocation_none(s, k, size as nat, parent as nat);
            }
            return None;
        }
        cur = next;
        proof {
            k = k + 1;
        }
    }
}

/// Stores a header at `at`, leaving every other byte as it was.
fn write_header(region: &mut [u8], at: usize, size: usize, next: usize, parent: usize)
    requires
        at + HEADER_SIZE <= old(region)@.len(),
    ensures
        final(region)@.len() == old(region)@.len(),
        word(final(region)@, at as int) == size,
        word(final(region)@, at + 8) == next,
        word(final(region)@, at + 16) == parent,
        forall|j: int|
            0 <= j < old(region)@.len() && !(at <= j < at + HEADER_SIZE) ==> final(region)@[j]
                == old(region)@[j],
{
    let n = region.len();
    write_word(region, at, size as u64);
    write_word(region, at + 8, next as u64);
    let ghost mid = region@;
    write_word(region, at + 16, parent as u64);
    proof {
        crate::layout::lemma_word_frame(mid, region@, at as int);
        crate::layout::lemma_word_frame(mid, region@, at + 8);
    }
}

proof fn lemma_allocation_placed(s: Seq<u8>, t: Seq<u8>, k: int, size: nat, parent: nat)
    requires
        size > 0,
        encodes(s, blocks_of(s)),
        0 <= k <= blocks_of(s).len(),
        fits(blocks_of(s), s.len(), k, size),
        forall|j: int| 0 <= j < k ==> !fits(blocks_of(s), s.len(), j, size),
        first_fit(blocks_of(s), s.len(), size) == first_fit_from(blocks_of(s), s.len(), size, k),
        t.len() == s.len(),
        word(t, node_end(blocks_of(s), k) as int) as nat == size,
        word(t, node_end(blocks_of(s), k) as int + 8) as nat == next_of(blocks_of(s), k),
        word(t, node_end(blocks_of(s), k) as int + 16) as nat == parent,
        word(t, link_slot(blocks_of(s), k) as int) as nat == node_end(blocks_of(s), k),
        forall|j: int|
            0 <= j < s.len() && !(node_end(blocks_of(s), k) <= j < node_end(blocks_of(s), k)
                + HEADER_SIZE) && !(link_slot(blocks_of(s), k) <= j < link_slot(blocks_of(s), k)
                + 8) ==> t[j] == s[j],
        node_end(blocks_of(s), k) + HEADER_SIZE <= usize::MAX,
    ensures
        allocation(
            s,
            t,
            size,
            parent,
            Some((node_end(blocks_of(s), k) + HEADER_SIZE) as usize),
        ),
{
    let blocks = blocks_of(s);
    lemma_place(s, t, blocks, k, size, parent);
    lemma_blocks_of(t, placed(blocks, k, size, parent));
    assert(placed(blocks, k, size, parent).len() == blocks.len() + 1);
    assert(first_fit_from(blocks, s.len(), size, k) == Some(k as nat));
    assert(some_gap_fits(blocks, s.len(), size));
}

proof fn lemma_allocation_none(s: Seq<u8>, k: int, size: nat, parent: nat)
    requires
        size > 0,
        wf(s),
        encodes(s, blocks_of(s)),
        k == blocks_of(s).len(),
        !fits(blocks_of(s), s.len(), k, size),
        forall|j: int| 0 <= j < k ==> !fits(blocks_of(s), s.len(), j, size),
        first_fit(blocks_of(s), s.len(), size) == first_fit_from(blocks_of(s), s.len(), size, k),
    ensures
        allocation(s, s, size, parent, None),
{
    let blocks = blocks_of(s);
    lemma_blocks_of(s, blocks);
    assert(first_fit_from(blocks, s.len(), size, k + 1) is None);
}

/// Walks the list once, unlinking and clearing every block that releasing
/// `data` removes. Returns how many it removed.
#[verifier::rlimit(30)]
fn deallocate(region: &mut [u8], data: usize) -> (r: usize)
    requires
        wf(old(region)@),
    ensures
        release(old(region)@, final(region)@, data as nat),
        r == released_count(blocks_of(old(region)@), data as nat),
{
    let ghost s = region@;
    let ghost blocks = blocks_of(s);
    let len = region.len();
    let mut prev: usize = 0;
    let mut current = read_word(region, 8) as usize;
    let mut count: usize = 0;
    let ghost mut i: int = 0;
    let ghost mut pi: int = -1;
    proof {
        reveal(walk_frames);
        assert(blocks.take(0) =~= Seq::<Block>::empty());
        assert(kept(blocks.take(0), data as nat) =~= Seq::<Block>::empty()) by {
            reveal(Seq::filter);
        }
        assert(kept(blocks.take(0), data as nat) + blocks.skip(0) =~= blocks);
    }
    while current != 0
        invariant
            s == old(region)@,
            len == s.len(),
            region@.len() == len,
            encodes(s, blocks),
            blocks == blocks_of(s),
            0 <= i <= blocks.len(),
            encodes(region@, kept(blocks.take(i), data as nat) + blocks.skip(i)),
            -1 <= pi < i,
            prev == if pi < 0 {
                0
            } else {
                blocks[pi].offset
            },
            pi < 0 <==> kept(blocks.take(i), data as nat).len() == 0,
            pi >= 0 ==> kept(blocks.take(i), data as nat).last() == blocks[pi],
            pi >= 0 ==> !released(blocks[pi], data as nat),
            walk_frames(s, region@, blocks, data as nat, i),
            current == next_of(blocks, i),
            count == 0 ==> region@ == s,
            count == i - kept(blocks.take(i), data as nat).len(),
            kept(blocks.take(i), data as nat).len() <= i,
        decreases blocks.len() - i,
    {
        let ghost ks = kept(blocks.take(i), data as nat);
        let ghost l = ks + blocks.skip(i);
        let ghost kl = ks.len() as int;
        proof {
            assert(blocks[i].offset >= HEADER_SIZE);
            assert(i < blocks.len());
            assert(l[kl] == blocks[i]);
            assert(header_holds(region@, l, kl));
            assert(end_of(l[kl]) <= len);
            if kl > 0 {
                assert(l[kl - 1] == ks.last());
                assert(end_of(blocks[pi]) <= blocks[i].offset);
            }
            assert(blocks.take(i + 1) =~= blocks.take(i).push(blocks[i]));
            blocks.take(i).lemma_filter_push(blocks[i], |b: Block| !released(b, data as nat));
        }
        let size = read_word(region, current) as usize;
        let next = read_word(region, current + 8) as usize;
        let parent = read_word(region, current + 16);
        assert(next == next_of(blocks, i + 1));
        if size > 0 && (current + HEADER_SIZE == data || parent == data as u64) {
            let ghost before = region@;
            write_word(region, prev + 8, next as u64);
            zero_range(region, current, current + HEADER_SIZE + size);
            proof {
                lemma_release_step(s, before, region@, blocks, data as nat, i, pi);
                lemma_unlink(before, region@, l, kl);
                assert(released(blocks[i], data as nat));
                assert(kept(blocks.take(i + 1), data as nat) == ks);
                lemma_offset_bound(blocks, i);
                assert(l.remove(kl) =~= kept(blocks.take(i + 1), data as nat) + blocks.skip(i + 1));
            }
            count = count + 1;
        } else {
            proof {
                assert(l =~= kept(blocks.take(i + 1), data as nat) + blocks.skip(i + 1));
            }
            prev = current;
            proof {
                lemma_keep_step(s, region@, blocks, data as nat, i);
                pi = i;
            }
        }
        current = next;
        proof {
            i = i + 1;
        }
    }
    proof {
        assert(i == blocks.len());
        assert(blocks.take(i) =~= blocks);
        assert(blocks.skip(i) =~= Seq::<Block>::empty());
        assert(kept(blocks, data as nat) + blocks.skip(i) =~= kept(blocks, data as nat));
        lemma_blocks_of(region@, kept(blocks, data as nat));
        reveal(walk_frames);
        assert(released_count(blocks, data as nat) == count);
    }
    count
}

/// Clears the bytes from `from` up to `to`, leaving every other byte as it was.
fn zero_range(region: &mut [u8], from: usize, to: usize)
    requires
        from <= to <= old(region)@.len(),
    ensures
        final(region)@.len() == old(region)@.len(),
        forall|j: int| from <= j < to ==> final(region)@[j] == 0,
        forall|j: int|
            0 <= j < old(region)@.len() && !(from <= j < to) ==> final(region)@[j]
                == old(region)@[j],
{
    let mut at = from;
    while at < to
        invariant
            from <= at <= to,
            to <= old(region)@.len(),
            region@.len() == old(region)@.len(),
            forall|j: int| from <= j < at ==> region@[j] == 0,
            forall|j: int|
                0 <= j < old(region)@.len() && !(from <= j < to) ==> region@[j]
                    == old(region)@[j],
        decreases to - at,
    {
        region[at] = 0;
        at = at + 1;
    }
}

/// Unlinking and clearing `blocks[i]`, with `blocks[pi]` (or the head sentinel)
/// as its predecessor, keeps the bytes that the walk promises.
proof fn lemma_release_step(
    s: Seq<u8>,
    before: Seq<u8>,
    after: Seq<u8>,
    blocks: Seq<Block>,
    data: nat,
    i: int,
    pi: int,
)
    requires
        encodes(s, blocks),
        0 <= i < blocks.len(),
        -1 <= pi < i,
        released(blocks[i], data),
        pi >= 0 ==> !released(blocks[pi], data),
        before.len() == s.len(),
        after.len() == s.len(),
        forall|j: int|
            blocks[i].offset <= j < end_of(blocks[i]) ==> after[j] == 0,
        forall|j: int|
            0 <= j < s.len() && !(blocks[i].offset <= j < end_of(blocks[i])) && !((if pi < 0 {
                8
            } else {
                blocks[pi].offset + 8
            }) <= j < (if pi < 0 {
                8
            } else {
                blocks[pi].offset + 8
            }) + 8) ==> after[j] == before[j],
        walk_frames(s, before, blocks, data, i),
    ensures
        walk_frames(s, after, blocks, data, i + 1),
{
    reveal(walk_frames);
    assert forall|j: int|
        0 <= j < s.len() && outside_release(blocks, data, j) implies #[trigger] after[j]
            == s[j] by {
        assert(!(released(blocks[i], data) && blocks[i].offset <= j < end_of(blocks[i])));
        if pi >= 0 {
            assert(!(!released(blocks[pi], data) && blocks[pi].offset + 8 <= j < blocks[pi].offset
                + 16));
        }
        assert(before[j] == s[j]);
    }
    assert forall|m: int, j: int|
        #![trigger blocks[m], after[j]]
        0 <= m < i + 1 && released(blocks[m], data) && blocks[m].offset <= j < end_of(blocks[m])
            implies after[j] == 0 by {
        if m < i {
            assert(end_of(blocks[m]) <= blocks[i].offset);
            assert(before[j] == 0);
            if pi >= 0 && pi != m {
                if pi < m {
                    assert(end_of(blocks[pi]) <= blocks[m].offset);
                } else {
                    assert(end_of(blocks[m]) <= blocks[pi].offset);
                }
            }
        }
    }
    assert forall|m: int, j: int|
        #![trigger blocks[m], after[j]]
        0 <= m < blocks.len() && !released(blocks[m], data) && payload_of(blocks[m]) <= j
            < end_of(blocks[m]) implies after[j] == s[j] by {
        assert(before[j] == s[j]);
        assert(blocks[m].offset >= HEADER_SIZE);
        if m < i {
            assert(end_of(blocks[m]) <= blocks[i].offset);
        } else if m > i {
            assert(end_of(blocks[i]) <= blocks[m].offset);
        }
        if pi >= 0 && pi != m {
            if pi < m {
                assert(end_of(blocks[pi]) <= blocks[m].offset);
            } else {
                assert(end_of(blocks[m]) <= blocks[pi].offset);
            }
        }
    }
    assert forall|m: int, j: int|
        #![trigger blocks[m], after[j]]
        i + 1 <= m < blocks.len() && blocks[m].offset <= j < end_of(blocks[m]) implies after[j]
            == s[j] by {
        assert(before[j] == s[j]);
        assert(end_of(blocks[i]) <= blocks[m].offset);
        if pi >= 0 {
            assert(end_of(blocks[pi]) <= blocks[m].offset);
        }
    }
}

/// What the release walk has done to the bytes once it has passed `i` blocks:
/// released blocks behind it are cleared, payloads of kept blocks are
/// untouched, and blocks ahead of it are untouched.
#[verifier::opaque]
spec fn walk_frames(s: Seq<u8>, t: Seq<u8>, blocks: Seq<Block>, data: nat, i: int) -> bool {
    &&& forall|m: int, j: int|
        #![trigger blocks[m], t[j]]
        0 <= m < i && released(blocks[m], data) && blocks[m].offset <= j < end_of(blocks[m])
            ==> t[j] == 0
    &&& forall|m: int, j: int|
        #![trigger blocks[m], t[j]]
        0 <= m < blocks.len() && !released(blocks[m], data) && payload_of(blocks[m]) <= j
            < end_of(blocks[m]) ==> t[j] == s[j]
    &&& forall|m: int, j: int|
        #![trigger blocks[m], t[j]]
        i <= m < blocks.len() && blocks[m].offset <= j < end_of(blocks[m]) ==> t[j] == s[j]
    &&& forall|j: int|
        0 <= j < s.len() && outside_release(blocks, data, j) ==> #[trigger] t[j] == s[j]
    &&& t.len() == s.len()
}

proof fn lemma_keep_step(s: Seq<u8>, t: Seq<u8>, blocks: Seq<Block>, data: nat, i: int)
    requires
        walk_frames(s, t, blocks, data, i),
        0 <= i < blocks.len(),
        !released(blocks[i], data),
    ensures
        walk_frames(s, t, blocks, data, i + 1),
{
    reveal(walk_frames);
}

} // verus!
