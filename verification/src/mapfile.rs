//! The rescue map: which byte ranges of a device were copied, failed or are still to try.

use vstd::prelude::*;

verus! {

/// State of a range of the device.
#[derive(Debug, Clone, Copy, PartialEq, Eq, Structural)]
pub enum BlockStatus {
    NonTried,
    Finished,
    BadSector,
    NonTrimmed,
}

/// The map-file character of a status.
pub open spec fn status_char(s: BlockStatus) -> char {
    match s {
        BlockStatus::NonTried => '?',
        BlockStatus::Finished => '+',
        BlockStatus::BadSector => '-',
        BlockStatus::NonTrimmed => '/',
    }
}

impl BlockStatus {
    pub fn to_char(self) -> (c: char)
        ensures
            c == status_char(self),
    {
        match self {
            BlockStatus::NonTried => '?',
            BlockStatus::Finished => '+',
            BlockStatus::BadSector => '-',
            BlockStatus::NonTrimmed => '/',
        }
    }

    pub fn from_char(c: char) -> (r: Option<Self>)
        ensures
            r matches Some(s) ==> status_char(s) == c,
            r is None ==> c != '?' && c != '+' && c != '-' && c != '/',
    {
        match c {
            '?' => Some(BlockStatus::NonTried),
            '+' => Some(BlockStatus::Finished),
            '-' => Some(BlockStatus::BadSector),
            '/' => Some(BlockStatus::NonTrimmed),
            _ => None,
        }
    }
}

/// A contiguous byte range with one status.
#[derive(Debug, Clone, Copy, PartialEq, Eq, Structural)]
pub struct MapBlock {
    pub pos: u64,
    pub size: u64,
    pub status: BlockStatus,
}

/// One past the last byte of a block.
pub open spec fn block_end(b: MapBlock) -> int {
    b.pos + b.size
}

/// Whether byte `p` lies in block `b`.
pub open spec fn block_contains(b: MapBlock, p: int) -> bool {
    b.pos <= p < block_end(b)
}

/// The status of the first block that contains byte `p`, if any.
#[verifier::opaque]
pub open spec fn status_at(s: Seq<MapBlock>, p: int) -> Option<BlockStatus>
    decreases s.len(),
{
    if s.len() == 0 {
        None
    } else if block_contains(s[0], p) {
        Some(s[0].status)
    } else {
        status_at(s.drop_first(), p)
    }
}

/// Blocks in increasing order that do not overlap, each ending within `u64`.
pub open spec fn blocks_wf(s: Seq<MapBlock>) -> bool {
    &&& forall|i: int| 0 <= i < s.len() ==> block_end(#[trigger] s[i]) <= u64::MAX
    &&& forall|i: int, j: int| 0 <= i < j < s.len() ==> block_end(s[i]) <= s[j].pos
}

/// Every block holds at least one byte.
pub open spec fn blocks_positive(s: Seq<MapBlock>) -> bool {
    forall|i: int| 0 <= i < s.len() ==> (#[trigger] s[i]).size > 0
}

/// Inserting a block of at least one byte among blocks that each hold one keeps that so.
proof fn lemma_insert_positive(before: Seq<MapBlock>, after: Seq<MapBlock>, x: MapBlock, j: int)
    requires
        blocks_positive(before),
        x.size > 0,
        0 <= j <= before.len(),
        after == before.take(j) + seq![x] + before.skip(j),
    ensures
        blocks_positive(after),
{
    assert forall|i: int| 0 <= i < after.len() implies (#[trigger] after[i]).size > 0 by {
        if i < j {
            assert(after[i] == before[i]);
        } else if i > j {
            assert(after[i] == before[i - 1]);
        }
    }
}

/// Blocks ordered by start position.
pub open spec fn blocks_sorted(s: Seq<MapBlock>) -> bool {
    forall|i: int, j: int| 0 <= i < j < s.len() ==> s[i].pos <= s[j].pos
}

/// Block `i` is directly followed by a touching block of the same status.
pub open spec fn mergeable(s: Seq<MapBlock>, i: int) -> bool {
    block_end(s[i]) == s[i + 1].pos && s[i].status == s[i + 1].status
}

/// No block is directly followed by a touching block of the same status.
pub open spec fn blocks_compact(s: Seq<MapBlock>) -> bool {
    forall|i: int| 0 <= i < s.len() - 1 ==> !#[trigger] mergeable(s, i)
}

/// Every block ends within `u64`.
pub open spec fn blocks_bounded(s: Seq<MapBlock>) -> bool {
    forall|i: int| 0 <= i < s.len() ==> block_end(#[trigger] s[i]) <= u64::MAX
}

/// The parts of block `b` outside the range `[offset, end)`.
pub open spec fn block_pieces(b: MapBlock, offset: int, end: int) -> Seq<MapBlock> {
    if block_end(b) <= offset || b.pos >= end {
        seq![b]
    } else {
        (if b.pos < offset {
            seq![MapBlock { pos: b.pos, size: (offset - b.pos) as u64, status: b.status }]
        } else {
            Seq::empty()
        }) + (if block_end(b) > end {
            seq![MapBlock { pos: end as u64, size: (block_end(b) - end) as u64, status: b.status }]
        } else {
            Seq::empty()
        })
    }
}

/// The parts of all blocks outside the range `[offset, end)`, in block order.
#[verifier::opaque]
pub open spec fn all_pieces(s: Seq<MapBlock>, offset: int, end: int) -> Seq<MapBlock>
    decreases s.len(),
{
    if s.len() == 0 {
        Seq::empty()
    } else {
        all_pieces(s.drop_last(), offset, end) + block_pieces(s.last(), offset, end)
    }
}

/// Status lookup over a concatenation looks in the first part first.
pub proof fn lemma_status_at_concat(a: Seq<MapBlock>, b: Seq<MapBlock>, p: int)
    ensures
        status_at(a + b, p) == (if status_at(a, p) is Some {
            status_at(a, p)
        } else {
            status_at(b, p)
        }),
    decreases a.len(),
{
    reveal(status_at);
    if a.len() == 0 {
        assert(a + b =~= b);
    } else {
        assert((a + b).drop_first() =~= a.drop_first() + b);
        lemma_status_at_concat(a.drop_first(), b, p);
    }
}

proof fn lemma_status_single(b: MapBlock, p: int)
    ensures
        status_at(seq![b], p) == (if block_contains(b, p) { Some(b.status) } else { None::<BlockStatus> }),
{
    reveal_with_fuel(status_at, 2);
    assert(seq![b].drop_first() =~= Seq::<MapBlock>::empty());
}

/// Removing a range from every block leaves the statuses outside the range and nothing inside.
proof fn lemma_pieces_status(s: Seq<MapBlock>, offset: int, end: int, p: int)
    requires
        offset < end,
        blocks_bounded(s),
    ensures
        status_at(all_pieces(s, offset, end), p) == (if offset <= p < end {
            None::<BlockStatus>
        } else {
            status_at(s, p)
        }),
    decreases s.len(),
{
    reveal(all_pieces);
    if s.len() == 0 {
        reveal(status_at);
    } else {
        let b = s.last();
        let init = s.drop_last();
        assert(s =~= init + seq![b]);
        assert(blocks_bounded(init)) by {
            assert forall|i: int| 0 <= i < init.len() implies block_end(#[trigger] init[i]) <= u64::MAX by {
                assert(init[i] == s[i]);
            }
        }
        assert(block_end(b) <= u64::MAX) by {
            assert(b == s[s.len() - 1]);
        }
        lemma_pieces_status(init, offset, end, p);
        lemma_status_at_concat(all_pieces(init, offset, end), block_pieces(b, offset, end), p);
        lemma_status_at_concat(init, seq![b], p);
        lemma_status_single(b, p);
        let bp = block_pieces(b, offset, end);
        if block_end(b) <= offset || b.pos >= end {
        } else {
            let l: Seq<MapBlock> = if b.pos < offset {
                seq![MapBlock { pos: b.pos, size: (offset - b.pos) as u64, status: b.status }]
            } else {
                Seq::empty()
            };
            let r: Seq<MapBlock> = if block_end(b) > end {
                seq![MapBlock { pos: end as u64, size: (block_end(b) - end) as u64, status: b.status }]
            } else {
                Seq::empty()
            };
            assert(bp == l + r);
            lemma_status_at_concat(l, r, p);
            if b.pos < offset {
                lemma_status_single(l[0], p);
                assert(l =~= seq![l[0]]);
            }
            if block_end(b) > end {
                lemma_status_single(r[0], p);
                assert(r =~= seq![r[0]]);
            }
        }
    }
}

/// Every piece lies entirely before or entirely after the range, and ends within `u64`.
pub open spec fn pieces_clear_of(s: Seq<MapBlock>, offset: int, end: int) -> bool {
    forall|i: int|
        0 <= i < s.len() ==> (block_end(#[trigger] s[i]) <= offset || s[i].pos >= end)
            && block_end(s[i]) <= u64::MAX
}

proof fn lemma_pieces_clear(s: Seq<MapBlock>, offset: int, end: int)
    requires
        0 <= offset < end <= u64::MAX,
        blocks_bounded(s),
    ensures
        pieces_clear_of(all_pieces(s, offset, end), offset, end),
    decreases s.len(),
{
    reveal(all_pieces);
    if s.len() > 0 {
        lemma_pieces_clear(s.drop_last(), offset, end);
        let a = all_pieces(s.drop_last(), offset, end);
        let bp = block_pieces(s.last(), offset, end);
        assert(s.last() == s[s.len() - 1]);
        assert forall|i: int| 0 <= i < (a + bp).len() implies (block_end(#[trigger] (a + bp)[i])
            <= offset || (a + bp)[i].pos >= end) && block_end((a + bp)[i]) <= u64::MAX by {
            if i >= a.len() {
                let b = s.last();
                if !(block_end(b) <= offset || b.pos >= end) && b.pos < offset && i == a.len() {
                } else {
                }
            }
        }
    }
}

/// A map of a device: the position reached last, its status, and the blocks.
#[derive(Debug, Clone)]
pub struct RecoveryMapFile {
    pub current_pos: u64,
    pub current_status: BlockStatus,
    pub blocks: Vec<MapBlock>,
}

/// Lookup in a sequence that starts with one block.
proof fn lemma_status_cons(b: MapBlock, rest: Seq<MapBlock>, p: int)
    ensures
        status_at(seq![b] + rest, p) == (if block_contains(b, p) {
            Some(b.status)
        } else {
            status_at(rest, p)
        }),
{
    reveal(status_at);
    assert((seq![b] + rest).drop_first() =~= rest);
}

/// Inserts `b` after every block that starts at or before it; returns where it went.
fn insert_by_pos(v: &mut Vec<MapBlock>, b: MapBlock) -> (j: usize)
    ensures
        j <= old(v)@.len(),
        final(v)@ == old(v)@.take(j as int) + seq![b] + old(v)@.skip(j as int),
        forall|k: int| 0 <= k < j ==> (#[trigger] old(v)@[k]).pos <= b.pos,
        j < old(v)@.len() ==> old(v)@[j as int].pos > b.pos,
        blocks_sorted(old(v)@) ==> blocks_sorted(final(v)@),
{
    let mut j: usize = 0;
    while j < v.len() && v[j].pos <= b.pos
        invariant
            j <= v@.len(),
            forall|k: int| 0 <= k < j ==> (#[trigger] v@[k]).pos <= b.pos,
        decreases v@.len() - j,
    {
        j += 1;
    }
    let ghost before = v@;
    v.insert(j, b);
    assert(v@ =~= before.take(j as int) + seq![b] + before.skip(j as int));
    proof {
        if blocks_sorted(before) {
            assert forall|x: int, y: int| 0 <= x < y < v@.len() implies v@[x].pos <= v@[y].pos by {
                if y < j {
                } else if y == j {
                } else if x < j {
                    assert(before[x].pos <= b.pos);
                    assert(before[j as int].pos > b.pos);
                    assert(before[j as int].pos <= before[y - 1].pos);
                } else if x == j {
                    assert(before[j as int].pos <= before[y - 1].pos);
                } else {
                    assert(before[x - 1].pos <= before[y - 1].pos);
                }
            }
        }
    }
    j
}

/// A block with the same fields.
fn copy_block(b: &MapBlock) -> (r: MapBlock)
    ensures
        r == *b,
{
    MapBlock { pos: b.pos, size: b.size, status: b.status }
}

/// The parts of `blocks` outside `[offset, range_end)`, ordered by position.
#[verifier::rlimit(40)]
fn split_around(blocks: &Vec<MapBlock>, offset: u64, range_end: u64) -> (r: Vec<MapBlock>)
    requires
        offset < range_end,
        blocks_bounded(blocks@),
    ensures
        blocks_sorted(r@),
        blocks_bounded(r@),
        blocks_wf(blocks@) ==> r@ == all_pieces(blocks@, offset as int, range_end as int),
        blocks_wf(blocks@) ==> blocks_wf(r@),
        blocks_positive(blocks@) ==> blocks_positive(r@),
{
    let ghost old_blocks = blocks@;
    let ghost wf = blocks_wf(old_blocks);
    let ghost pos0 = blocks_positive(old_blocks);
    let mut new_blocks: Vec<MapBlock> = Vec::new();
    proof {
        reveal(all_pieces);
        assert(old_blocks.take(0) =~= Seq::<MapBlock>::empty());
    }
    let n = blocks.len();
    let mut i: usize = 0;
    while i < n
        invariant
            n == blocks@.len(),
            blocks@ == old_blocks,
            offset < range_end,
            wf == blocks_wf(old_blocks),
            blocks_bounded(old_blocks),
            i <= n,
            blocks_sorted(new_blocks@),
            blocks_bounded(new_blocks@),
            wf ==> new_blocks@ == all_pieces(old_blocks.take(i as int), offset as int, range_end as int),
            wf ==> blocks_wf(new_blocks@),
            pos0 == blocks_positive(old_blocks),
            pos0 ==> blocks_positive(new_blocks@),
            wf && i < n ==> forall|k: int|
                0 <= k < new_blocks@.len() ==> block_end(#[trigger] new_blocks@[k]) <= old_blocks[i as int].pos,
        decreases n - i,
    {
        let block = copy_block(&blocks[i]);
        let bend = block.pos + block.size;
        let ghost before = new_blocks@;
        proof {
            assert(old_blocks.take(i + 1).drop_last() =~= old_blocks.take(i as int));
            assert(old_blocks.take(i + 1).last() == block);
        }
        if bend <= offset || block.pos >= range_end {
            let j = insert_by_pos(&mut new_blocks, block);
            proof {
                if pos0 {
                    assert(old_blocks[i as int] == block);
                    lemma_insert_positive(before, new_blocks@, block, j as int);
                }
                if wf {
                    if j < before.len() {
                        assert(before[j as int].pos <= block_end(before[j as int]));
                    }
                    assert(new_blocks@ =~= before.push(block));
                }
            }
        } else {
            if block.pos < offset {
                let left = MapBlock { pos: block.pos, size: offset - block.pos, status: block.status };
                let j = insert_by_pos(&mut new_blocks, left);
                proof {
                    if pos0 {
                        lemma_insert_positive(before, new_blocks@, left, j as int);
                    }
                    if wf {
                        if j < before.len() {
                            assert(before[j as int].pos <= block_end(before[j as int]));
                        }
                        assert(new_blocks@ =~= before.push(left));
                    }
                }
            }
            let ghost mid = new_blocks@;
            if bend > range_end {
                let right = MapBlock { pos: range_end, size: bend - range_end, status: block.status };
                let j = insert_by_pos(&mut new_blocks, right);
                proof {
                    if pos0 {
                        lemma_insert_positive(mid, new_blocks@, right, j as int);
                    }
                    if wf {
                        if j < mid.len() {
                            assert(mid[j as int].pos <= block_end(mid[j as int]));
                        }
                        assert(new_blocks@ =~= mid.push(right));
                    }
                }
            }
        }
        proof {
            if wf {
                reveal(all_pieces);
                assert(new_blocks@ =~= before + block_pieces(block, offset as int, range_end as int));
                if i + 1 < n {
                    assert(block_end(old_blocks[i as int]) <= old_blocks[i + 1].pos);
                }
            }
        }
        i += 1;
    }
    proof {
        assert(old_blocks.take(n as int) =~= old_blocks);
    }
    new_blocks
}

/// Merges every block into its predecessor when they touch and share a status.
fn compact_blocks(t: &Vec<MapBlock>) -> (r: Vec<MapBlock>)
    requires
        blocks_sorted(t@),
        blocks_bounded(t@),
    ensures
        blocks_sorted(r@),
        blocks_bounded(r@),
        blocks_compact(r@),
        blocks_wf(t@) ==> blocks_wf(r@),
        blocks_positive(t@) ==> blocks_positive(r@),
        forall|p: int| #![trigger status_at(r@, p)] status_at(r@, p) == status_at(t@, p),
{
    let mut compacted: Vec<MapBlock> = Vec::new();
    let tn = t.len();
    let mut k: usize = 0;
    assert(compacted@ + t@.skip(0) =~= t@);
    while k < tn
        invariant
            tn == t@.len(),
            k <= tn,
            blocks_sorted(t@),
            blocks_bounded(t@),
            blocks_sorted(compacted@),
            blocks_bounded(compacted@),
            blocks_compact(compacted@),
            compacted@.len() > 0 ==> forall|m: int| k <= m < tn ==> compacted@.last().pos <= #[trigger] t@[m].pos,
            blocks_wf(t@) ==> blocks_wf(compacted@),
            blocks_positive(t@) ==> blocks_positive(compacted@),
            blocks_wf(t@) && compacted@.len() > 0 ==> forall|m: int| k <= m < tn ==> block_end(compacted@.last()) <= #[trigger] t@[m].pos,
            forall|p: int| #![trigger status_at(t@, p)] status_at(compacted@ + t@.skip(k as int), p) == status_at(t@, p),
        decreases tn - k,
    {
        let b = copy_block(&t[k]);
        let ghost cbefore = compacted@;
        let ghost rest = t@.skip(k + 1);
        proof {
            assert(t@.skip(k as int) =~= seq![b] + rest);
        }
        let cl = compacted.len();
        let mut merged = false;
        if cl > 0 {
            let last = copy_block(&compacted[cl - 1]);
            if last.pos + last.size == b.pos && last.status == b.status {
                let grown = MapBlock { pos: last.pos, size: last.size + b.size, status: last.status };
                compacted.set(cl - 1, grown);
                merged = true;
                proof {
                    lemma_merge_step(cbefore, compacted@, last, grown, b, rest, t@, k as int);
                }
            }
        }
        if !merged {
            compacted.push(b);
            proof {
                assert(compacted@ + rest =~= cbefore + t@.skip(k as int));
                if cl > 0 {
                    assert(cbefore.last() == cbefore[cl - 1]);
                }
                assert forall|m: int| 0 <= m < compacted@.len() - 1 implies !#[trigger] mergeable(compacted@, m) by {
                    if m < cl - 1 {
                        assert(compacted@[m] == cbefore[m]);
                        assert(compacted@[m + 1] == cbefore[m + 1]);
                        assert(!mergeable(cbefore, m));
                    }
                }
                if blocks_wf(t@) {
                    assert forall|x: int, y: int| 0 <= x < y < compacted@.len() implies block_end(compacted@[x]) <= compacted@[y].pos by {
                        if y == cl {
                            assert(block_end(cbefore[x]) <= block_end(cbefore.last())) by {
                                if x < cl - 1 {
                                    assert(block_end(cbefore[x]) <= cbefore[cl - 1].pos);
                                }
                            }
                        }
                    }
                }
            }
        }
        proof {
            if k + 1 < tn {
                assert forall|m: int| k + 1 <= m < tn implies compacted@.last().pos <= #[trigger] t@[m].pos by {
                    assert(t@[k as int].pos <= t@[m].pos);
                }
            }
            if blocks_wf(t@) && k + 1 < tn {
                assert forall|m: int| k + 1 <= m < tn implies block_end(compacted@.last()) <= #[trigger] t@[m].pos by {
                    assert(block_end(t@[k as int]) <= t@[m].pos);
                }
            }
        }
        k += 1;
    }
    assert(compacted@ + t@.skip(tn as int) =~= compacted@);
    compacted
}

/// One merge step of compaction keeps the lookup, order, bounds and compactness.
proof fn lemma_merge_step(
    cbefore: Seq<MapBlock>,
    cafter: Seq<MapBlock>,
    last: MapBlock,
    grown: MapBlock,
    b: MapBlock,
    rest: Seq<MapBlock>,
    t: Seq<MapBlock>,
    k: int,
)
    requires
        cbefore.len() > 0,
        cbefore.last() == last,
        cafter == cbefore.update(cbefore.len() - 1, grown),
        block_end(last) == b.pos,
        last.status == b.status,
        grown == (MapBlock { pos: last.pos, size: (last.size + b.size) as u64, status: last.status }),
        block_end(b) <= u64::MAX,
        0 <= k < t.len(),
        t.skip(k) == seq![b] + rest,
        blocks_sorted(cbefore),
        blocks_bounded(cbefore),
        blocks_compact(cbefore),
        blocks_wf(t) ==> blocks_wf(cbefore),
        forall|p: int| #![trigger status_at(t, p)] status_at(cbefore + t.skip(k), p) == status_at(t, p),
    ensures
        blocks_sorted(cafter),
        blocks_bounded(cafter),
        blocks_compact(cafter),
        blocks_wf(t) ==> blocks_wf(cafter),
        cafter.last() == grown,
        forall|p: int| #![trigger status_at(t, p)] status_at(cafter + rest, p) == status_at(t, p),
{
    let init = cbefore.drop_last();
    assert(cbefore =~= init + seq![last]);
    assert(cafter =~= init + seq![grown]);
    assert forall|p: int| #![trigger status_at(t, p)] status_at(cafter + rest, p) == status_at(t, p) by {
        assert(cbefore + t.skip(k) =~= init + (seq![last] + (seq![b] + rest)));
        assert(cafter + rest =~= init + (seq![grown] + rest));
        lemma_status_at_concat(init, seq![last] + (seq![b] + rest), p);
        lemma_status_at_concat(init, seq![grown] + rest, p);
        lemma_status_cons(last, seq![b] + rest, p);
        lemma_status_cons(b, rest, p);
        lemma_status_cons(grown, rest, p);
    }
    assert forall|m: int| 0 <= m < cafter.len() - 1 implies !#[trigger] mergeable(cafter, m) by {
        assert(cafter[m] == cbefore[m]);
        assert(cafter[m + 1].pos == cbefore[m + 1].pos);
        assert(cafter[m + 1].status == cbefore[m + 1].status);
        assert(!mergeable(cbefore, m));
    }
    if blocks_wf(t) {
        assert forall|x: int, y: int| 0 <= x < y < cafter.len() implies block_end(cafter[x]) <= cafter[y].pos by {
            assert(cafter[x] == cbefore[x]);
            assert(cafter[y].pos == cbefore[y].pos);
        }
    }
}

/// The blocks around an inserted range, with the range's block placed between them.
proof fn lemma_insert_range(
    old_blocks: Seq<MapBlock>,
    pieces: Seq<MapBlock>,
    t: Seq<MapBlock>,
    inserted: MapBlock,
    jn: int,
)
    requires
        blocks_wf(old_blocks),
        inserted.size > 0,
        block_end(inserted) <= u64::MAX,
        pieces == all_pieces(old_blocks, inserted.pos as int, block_end(inserted)),
        blocks_wf(pieces),
        0 <= jn <= pieces.len(),
        t == pieces.take(jn) + seq![inserted] + pieces.skip(jn),
        forall|k: int| 0 <= k < jn ==> (#[trigger] pieces[k]).pos <= inserted.pos,
        jn < pieces.len() ==> pieces[jn].pos > inserted.pos,
    ensures
        blocks_wf(t),
        forall|p: int| #![trigger status_at(t, p)] status_at(t, p) == (if block_contains(inserted, p) {
            Some(inserted.status)
        } else {
            status_at(old_blocks, p)
        }),
{
    let offset = inserted.pos as int;
    let range_end = block_end(inserted);
    lemma_pieces_clear(old_blocks, offset, range_end);
    assert forall|x: int, y: int| 0 <= x < y < t.len() implies block_end(t[x]) <= t[y].pos by {
        if y < jn {
            assert(t[x] == pieces[x] && t[y] == pieces[y]);
        } else if y == jn {
            assert(t[x] == pieces[x]);
            assert(pieces[x].pos <= offset);
        } else if x < jn {
            assert(t[x] == pieces[x] && t[y] == pieces[y - 1]);
        } else if x == jn {
            assert(t[y] == pieces[y - 1]);
            assert(pieces[jn].pos > offset);
            assert(pieces[jn].pos <= pieces[y - 1].pos) by {
                if jn < y - 1 {
                    assert(block_end(pieces[jn]) <= pieces[y - 1].pos);
                }
            }
        } else {
            assert(t[x] == pieces[x - 1] && t[y] == pieces[y - 1]);
        }
    }
    assert forall|p: int| #![trigger status_at(t, p)] status_at(t, p) == (if block_contains(inserted, p) {
        Some(inserted.status)
    } else {
        status_at(old_blocks, p)
    }) by {
        let a = pieces.take(jn);
        let b = pieces.skip(jn);
        assert(pieces =~= a + b);
        assert(t =~= a + (seq![inserted] + b));
        lemma_pieces_status(old_blocks, offset, range_end, p);
        lemma_status_at_concat(a, b, p);
        lemma_status_at_concat(a, seq![inserted] + b, p);
        lemma_status_cons(inserted, b, p);
    }
}

/// Marking a range that the map already covers keeps the span the blocks cover: a byte lies
/// in some block afterwards exactly when it did before (the law of `update_range`'s status
/// clause, read for coverage).
pub proof fn lemma_update_keeps_span(
    old_blocks: Seq<MapBlock>,
    new_blocks: Seq<MapBlock>,
    offset: int,
    length: int,
    status: BlockStatus,
)
    requires
        forall|p: int|
            #![trigger status_at(new_blocks, p)]
            status_at(new_blocks, p) == (if offset <= p < offset + length {
                Some(status)
            } else {
                status_at(old_blocks, p)
            }),
        forall|p: int| offset <= p < offset + length ==> #[trigger] status_at(old_blocks, p) is Some,
    ensures
        forall|p: int| #[trigger] status_at(new_blocks, p) is Some <==> status_at(old_blocks, p) is Some,
{
    assert forall|p: int| #[trigger] status_at(new_blocks, p) is Some <==> status_at(old_blocks, p) is Some by {
        if offset <= p < offset + length {
            assert(status_at(old_blocks, p) is Some);
        }
    }
}

impl RecoveryMapFile {
    /// Marks `[offset, offset + length)` with `status`: the blocks are split around the range,
    /// the range is inserted as one block, the blocks are ordered by position and touching
    /// blocks of equal status are merged. An empty range changes nothing.
    pub fn update_range(&mut self, offset: u64, length: u64, status: BlockStatus)
        requires
            offset + length <= u64::MAX,
            blocks_bounded(old(self).blocks@),
        ensures
            length == 0 ==> *final(self) == *old(self),
            length > 0 ==> final(self).current_pos == offset + length,
            length > 0 ==> final(self).current_status == status,
            length > 0 ==> blocks_sorted(final(self).blocks@),
            length > 0 ==> blocks_compact(final(self).blocks@),
            length > 0 ==> blocks_bounded(final(self).blocks@),
            length > 0 && blocks_wf(old(self).blocks@) ==> blocks_wf(final(self).blocks@),
            length > 0 && blocks_positive(old(self).blocks@) ==> blocks_positive(final(self).blocks@),
            length > 0 && blocks_wf(old(self).blocks@) ==> forall|p: int|
                #![trigger status_at(final(self).blocks@, p)]
                status_at(final(self).blocks@, p) == (if offset <= p < offset + length {
                    Some(status)
                } else {
                    status_at(old(self).blocks@, p)
                }),
    {
        if length == 0 {
            return;
        }
        let range_end = offset + length;
        let ghost old_blocks = self.blocks@;
        let mut new_blocks = split_around(&self.blocks, offset, range_end);
        let ghost pieces = new_blocks@;
        let inserted = MapBlock { pos: offset, size: length, status };
        let jn = insert_by_pos(&mut new_blocks, inserted);
        proof {
            if blocks_positive(old_blocks) {
                lemma_insert_positive(pieces, new_blocks@, inserted, jn as int);
            }
            if blocks_wf(old_blocks) {
                lemma_insert_range(old_blocks, pieces, new_blocks@, inserted, jn as int);
            }
            assert forall|k: int| 0 <= k < new_blocks@.len() implies block_end(#[trigger] new_blocks@[k]) <= u64::MAX by {
                if k < jn {
                    assert(new_blocks@[k] == pieces[k]);
                } else if k > jn {
                    assert(new_blocks@[k] == pieces[k - 1]);
                }
            }
        }
        let compacted = compact_blocks(&new_blocks);
        self.blocks = compacted;
        self.current_pos = range_end;
        self.current_status = status;
    }

    /// A map of `total_size` bytes, none of them tried yet.
    pub fn new_initial(total_size: u64) -> (r: Self)
        ensures
            r.current_pos == 0,
            r.current_status == BlockStatus::NonTried,
            r.blocks@ == seq![MapBlock { pos: 0, size: total_size, status: BlockStatus::NonTried }],
            blocks_wf(r.blocks@),
    {
        let mut blocks: Vec<MapBlock> = Vec::new();
        blocks.push(MapBlock { pos: 0, size: total_size, status: BlockStatus::NonTried });
        RecoveryMapFile { current_pos: 0, current_status: BlockStatus::NonTried, blocks }
    }
}

} // verus!
