//! Imaging a failing disk onto another device: chunk reads, sector-by-sector retries, and
//! a rescue map of what was copied and what could not be read.

use vstd::prelude::*;
use crate::device::BlockDevice;
use crate::error::Result;
use crate::mapfile::{
    block_end, blocks_bounded, blocks_wf, status_at, BlockStatus, MapBlock, RecoveryMapFile,
};
use crate::stats::RecoveryStats;

verus! {

/// Imaging settings.
pub struct ImagerConfig {
    pub chunk_size: usize,
    pub sector_size: u32,
    pub sync_mapfile_every_mb: u64,
}

impl ImagerConfig {
    /// 64 KiB chunks, 512-byte sectors, a map save every 10 MiB rescued.
    pub fn default() -> (r: Self)
        ensures
            r.chunk_size == 65536,
            r.sector_size == 512,
            r.sync_mapfile_every_mb == 10,
    {
        ImagerConfig { chunk_size: 65536, sector_size: 512, sync_mapfile_every_mb: 10 }
    }
}

/// An imaging session: its settings, its rescue map and its counters.
pub struct DiskImager {
    config: ImagerConfig,
    mapfile: RecoveryMapFile,
    stats: RecoveryStats,
}

/// Byte `p` lies in the untried block `b`, within the source's `total` bytes.
pub open spec fn in_todo(b: MapBlock, total: int, p: int) -> bool {
    b.status == BlockStatus::NonTried && b.pos <= p && p < block_end(b) && p < total
}

/// Byte `p` lies in one of the untried blocks of `blocks`, within `total` bytes: a byte an
/// imaging run works on.
pub open spec fn imaged_at(blocks: Seq<MapBlock>, total: int, p: int) -> bool {
    exists|k: int| 0 <= k < blocks.len() && #[trigger] in_todo(blocks[k], total, p)
}

/// Some byte lies in one of the untried blocks of `blocks`, within `total` bytes: an imaging
/// run has work to do.
pub open spec fn has_work(blocks: Seq<MapBlock>, total: int) -> bool {
    exists|p: int| #[trigger] imaged_at(blocks, total, p)
}

/// Byte `p` was copied (the map says finished and the destination holds the source's byte)
/// or could not be read (the map says bad sector and the destination holds zero).
pub open spec fn rescued(map: Seq<MapBlock>, src: Seq<u8>, dst: Seq<u8>, p: int) -> bool {
    ||| status_at(map, p) == Some(BlockStatus::Finished) && 0 <= p < src.len() && p < dst.len()
        && dst[p] == src[p]
    ||| status_at(map, p) == Some(BlockStatus::BadSector) && 0 <= p < dst.len() && dst[p] == 0
}

/// Byte `p` is handled once the run has gone through blocks `0..bi` of `blocks` and block
/// `bi` up to byte `upto`.
pub open spec fn done_upto(blocks: Seq<MapBlock>, total: int, bi: int, upto: int, p: int) -> bool {
    ||| exists|k: int| 0 <= k < bi && k < blocks.len() && #[trigger] in_todo(blocks[k], total, p)
    ||| (0 <= bi < blocks.len() && blocks[bi].status == BlockStatus::NonTried && blocks[bi].pos
        <= p < upto)
}

/// The run's invariant: every handled byte is rescued, every other byte keeps its status,
/// and the map stays well formed.
#[verifier::opaque]
pub open spec fn imaging_inv(
    map0: Seq<MapBlock>,
    map: Seq<MapBlock>,
    src: Seq<u8>,
    dst: Seq<u8>,
    total: int,
    bi: int,
    upto: int,
) -> bool {
    &&& blocks_wf(map)
    &&& forall|p: int| #[trigger] done_upto(map0, total, bi, upto, p) ==> rescued(map, src, dst, p)
    &&& forall|p: int|
        !done_upto(map0, total, bi, upto, p) ==> #[trigger] status_at(map, p) == status_at(map0, p)
}

/// A handled byte lies before the part of block `bi` from `upto` on.
proof fn lemma_done_before(blocks: Seq<MapBlock>, total: int, bi: int, upto: int, p: int)
    requires
        blocks_wf(blocks),
        0 <= bi < blocks.len(),
        blocks[bi].pos <= upto,
        done_upto(blocks, total, bi, upto, p),
    ensures
        p < upto,
{
    if exists|k: int| 0 <= k < bi && k < blocks.len() && #[trigger] in_todo(blocks[k], total, p) {
        let k = choose|k: int| 0 <= k < bi && k < blocks.len() && #[trigger] in_todo(blocks[k], total, p);
        assert(block_end(blocks[k]) <= blocks[bi].pos);
    }
}

/// Records the outcome of a range `[offset, offset + len)` of block `bi`: the destination
/// holds the bytes written, the map marks the range, and the invariant moves to the range's
/// end.
proof fn lemma_step(
    map0: Seq<MapBlock>,
    map: Seq<MapBlock>,
    map2: Seq<MapBlock>,
    src: Seq<u8>,
    dst: Seq<u8>,
    dst2: Seq<u8>,
    total: int,
    bi: int,
    offset: int,
    len: int,
    status: BlockStatus,
    written: Seq<u8>,
)
    requires
        blocks_wf(map0),
        0 <= bi < map0.len(),
        map0[bi].status == BlockStatus::NonTried,
        map0[bi].pos <= offset,
        len > 0,
        offset + len <= block_end(map0[bi]),
        offset + len <= total,
        imaging_inv(map0, map, src, dst, total, bi, offset),
        blocks_wf(map2),
        forall|p: int|
            #![trigger status_at(map2, p)]
            status_at(map2, p) == (if offset <= p < offset + len {
                Some(status)
            } else {
                status_at(map, p)
            }),
        written.len() == len,
        offset + len <= dst2.len(),
        dst2.len() >= dst.len(),
        dst2.subrange(offset, offset + len) == written,
        forall|i: int| 0 <= i < dst.len() && !(offset <= i < offset + len) ==> #[trigger] dst2[i] == dst[i],
        status == BlockStatus::Finished ==> offset + len <= src.len() && written == src.subrange(offset, offset + len),
        status == BlockStatus::BadSector ==> written == Seq::new(len as nat, |i: int| 0u8),
        status == BlockStatus::Finished || status == BlockStatus::BadSector,
    ensures
        imaging_inv(map0, map2, src, dst2, total, bi, offset + len),
{
    reveal(imaging_inv);
    assert forall|p: int| #[trigger] done_upto(map0, total, bi, offset + len, p) implies rescued(map2, src, dst2, p) by {
        if offset <= p < offset + len {
            assert(dst2[p] == written[p - offset]);
        } else {
            assert(done_upto(map0, total, bi, offset, p));
            lemma_done_before(map0, total, bi, offset, p);
            assert(status_at(map2, p) == status_at(map, p));
        }
    }
    assert forall|p: int| !done_upto(map0, total, bi, offset + len, p) implies #[trigger] status_at(map2, p) == status_at(map0, p) by {
        assert(!(offset <= p < offset + len));
        assert(!done_upto(map0, total, bi, offset, p));
    }
}

/// Some handled byte (see `done_upto`) is marked as a bad sector in `map`.
pub open spec fn bad_seen(map0: Seq<MapBlock>, map: Seq<MapBlock>, total: int, bi: int, upto: int) -> bool {
    exists|p: int|
        #[trigger] done_upto(map0, total, bi, upto, p) && status_at(map, p) == Some(BlockStatus::BadSector)
}

/// Some byte that an imaging run over `map0` works on is marked as a bad sector in `map`.
pub open spec fn bad_found(map0: Seq<MapBlock>, map: Seq<MapBlock>, total: int) -> bool {
    exists|p: int| #[trigger] imaged_at(map0, total, p) && status_at(map, p) == Some(BlockStatus::BadSector)
}

/// The bad-sector counter `now` has grown from `before` exactly when bad bytes were `seen`
/// (or it was already at its saturation value).
pub open spec fn bad_counted(seen: bool, now: u64, before: u64) -> bool {
    &&& seen ==> now > before || before == u64::MAX
    &&& !seen ==> now == before
}

/// Two descriptions of the same handled bytes see the same bad bytes.
proof fn lemma_bad_seen_same(
    map0: Seq<MapBlock>,
    map: Seq<MapBlock>,
    total: int,
    bi: int,
    upto: int,
    bi2: int,
    upto2: int,
)
    requires
        forall|p: int| done_upto(map0, total, bi, upto, p) == done_upto(map0, total, bi2, upto2, p),
    ensures
        bad_seen(map0, map, total, bi, upto) == bad_seen(map0, map, total, bi2, upto2),
{
    if bad_seen(map0, map, total, bi, upto) {
        let p = choose|p: int|
            #[trigger] done_upto(map0, total, bi, upto, p) && status_at(map, p) == Some(BlockStatus::BadSector);
        assert(done_upto(map0, total, bi2, upto2, p));
    }
    if bad_seen(map0, map, total, bi2, upto2) {
        let p = choose|p: int|
            #[trigger] done_upto(map0, total, bi2, upto2, p) && status_at(map, p) == Some(BlockStatus::BadSector);
        assert(done_upto(map0, total, bi, upto, p));
    }
}

/// Marking the range `[offset, offset + len)` of block `bi` as bad makes a handled byte bad;
/// marking it finished leaves the handled bad bytes as they were.
proof fn lemma_bad_step(
    map0: Seq<MapBlock>,
    map: Seq<MapBlock>,
    map2: Seq<MapBlock>,
    total: int,
    bi: int,
    offset: int,
    len: int,
    status: BlockStatus,
)
    requires
        blocks_wf(map0),
        0 <= bi < map0.len(),
        map0[bi].status == BlockStatus::NonTried,
        map0[bi].pos <= offset,
        len > 0,
        forall|p: int|
            #![trigger status_at(map2, p)]
            status_at(map2, p) == (if offset <= p < offset + len {
                Some(status)
            } else {
                status_at(map, p)
            }),
    ensures
        status == BlockStatus::BadSector ==> bad_seen(map0, map2, total, bi, offset + len),
        status == BlockStatus::Finished ==> bad_seen(map0, map2, total, bi, offset + len) == bad_seen(
            map0,
            map,
            total,
            bi,
            offset,
        ),
{
    if status == BlockStatus::BadSector {
        assert(done_upto(map0, total, bi, offset + len, offset));
        assert(status_at(map2, offset) == Some(BlockStatus::BadSector));
    }
    if status == BlockStatus::Finished {
        if bad_seen(map0, map, total, bi, offset) {
            let p = choose|p: int|
                #[trigger] done_upto(map0, total, bi, offset, p) && status_at(map, p) == Some(BlockStatus::BadSector);
            lemma_done_before(map0, total, bi, offset, p);
            assert(status_at(map2, p) == status_at(map, p));
            assert(done_upto(map0, total, bi, offset + len, p));
        }
        if bad_seen(map0, map2, total, bi, offset + len) {
            let p = choose|p: int|
                #[trigger] done_upto(map0, total, bi, offset + len, p) && status_at(map2, p) == Some(BlockStatus::BadSector);
            assert(!(offset <= p < offset + len));
            assert(status_at(map2, p) == status_at(map, p));
            assert(done_upto(map0, total, bi, offset, p));
        }
    }
}

proof fn lemma_block_start(blocks: Seq<MapBlock>, total: int, bi: int, p: int)
    requires
        0 <= bi < blocks.len(),
        blocks[bi].pos >= 0,
    ensures
        done_upto(blocks, total, bi, 0, p) == done_upto(blocks, total, bi, blocks[bi].pos as int, p),
{
}

proof fn lemma_block_end(blocks: Seq<MapBlock>, total: int, bi: int, bend: int, p: int)
    requires
        0 <= bi < blocks.len(),
        blocks[bi].status == BlockStatus::NonTried ==> bend == (if block_end(blocks[bi]) < total {
            block_end(blocks[bi])
        } else {
            total
        }),
    ensures
        done_upto(blocks, total, bi, bend, p) == done_upto(blocks, total, bi + 1, 0, p),
{
    if done_upto(blocks, total, bi + 1, 0, p) {
        let k = choose|k: int| 0 <= k < bi + 1 && k < blocks.len() && #[trigger] in_todo(blocks[k], total, p);
        if k < bi {
            assert(done_upto(blocks, total, bi, bend, p));
        }
    }
    if done_upto(blocks, total, bi, bend, p) {
        if blocks[bi].status == BlockStatus::NonTried && blocks[bi].pos <= p < bend {
            assert(in_todo(blocks[bi], total, p));
        }
    }
}

/// The untried block of `blocks` that byte `p` lies in.
pub open spec fn block_of(blocks: Seq<MapBlock>, total: int, p: int) -> MapBlock {
    blocks[choose|k: int| 0 <= k < blocks.len() && #[trigger] in_todo(blocks[k], total, p)]
}

/// The start of the chunk that an imaging run reads for byte `p` of block `b`: chunks of
/// `chunk` bytes follow each other from the block's start.
pub open spec fn chunk_start(b: MapBlock, chunk: int, p: int) -> int {
    b.pos + (p - b.pos) / chunk * chunk
}

/// The start of the sector that an imaging run reads for byte `p` of block `b` when its
/// chunk cannot be read: sectors of `ss` bytes follow each other from the chunk's start.
pub open spec fn sector_start(b: MapBlock, chunk: int, ss: int, p: int) -> int {
    let c = chunk_start(b, chunk, p);
    c + (p - c) / ss * ss
}

/// The status an imaging run gives byte `p` when the read of the chunk starting at `c`
/// succeeded exactly when `chunk_ok[c]`, and that of the sector starting at `s` exactly when
/// `sector_ok[s]`: finished when its chunk or else its sector could be read, a bad sector
/// otherwise.
pub open spec fn read_status(
    blocks: Seq<MapBlock>,
    total: int,
    chunk: int,
    ss: int,
    chunk_ok: Map<int, bool>,
    sector_ok: Map<int, bool>,
    p: int,
) -> Option<BlockStatus> {
    let b = block_of(blocks, total, p);
    if chunk_ok[chunk_start(b, chunk, p)] {
        Some(BlockStatus::Finished)
    } else if sector_ok[sector_start(b, chunk, ss, p)] {
        Some(BlockStatus::Finished)
    } else {
        Some(BlockStatus::BadSector)
    }
}

/// Every byte handled so far has the status its reads give.
#[verifier::opaque]
pub open spec fn reads_inv(
    map0: Seq<MapBlock>,
    map: Seq<MapBlock>,
    total: int,
    chunk: int,
    ss: int,
    chunk_ok: Map<int, bool>,
    sector_ok: Map<int, bool>,
    bi: int,
    upto: int,
) -> bool {
    forall|p: int|
        #[trigger] done_upto(map0, total, bi, upto, p) ==> status_at(map, p) == read_status(
            map0,
            total,
            chunk,
            ss,
            chunk_ok,
            sector_ok,
            p,
        )
}

/// Each byte that an imaging run over `map0` works on has in `map` the status that the
/// outcomes of its reads give, or, when the run did not complete, the status it had.
pub open spec fn statuses_by_reads(
    map0: Seq<MapBlock>,
    map: Seq<MapBlock>,
    total: int,
    chunk: int,
    ss: int,
    chunk_ok: Map<int, bool>,
    sector_ok: Map<int, bool>,
    complete: bool,
) -> bool {
    forall|p: int|
        #[trigger] imaged_at(map0, total, p) ==> status_at(map, p) == read_status(
            map0,
            total,
            chunk,
            ss,
            chunk_ok,
            sector_ok,
            p,
        ) || (!complete && status_at(map, p) == status_at(map0, p))
}

/// For some outcome of its chunk and sector reads, each byte that an imaging run over `map0`
/// works on has in `map` the status those reads give (see `statuses_by_reads`).
pub open spec fn imaged_by_reads(
    map0: Seq<MapBlock>,
    map: Seq<MapBlock>,
    total: int,
    chunk: int,
    ss: int,
    complete: bool,
) -> bool {
    exists|chunk_ok: Map<int, bool>, sector_ok: Map<int, bool>|
        #[trigger] statuses_by_reads(map0, map, total, chunk, ss, chunk_ok, sector_ok, complete)
}

/// A step of `c`-byte pieces from `pos` that reaches `a` also starts the piece of every byte
/// in `[a, a + c)`.
proof fn lemma_piece_start(pos: int, a: int, c: int, p: int)
    requires
        c > 0,
        a >= pos,
        (a - pos) % c == 0,
        a <= p < a + c,
    ensures
        pos + (p - pos) / c * c == a,
{
    vstd::arithmetic::div_mod::lemma_fundamental_div_mod(a - pos, c);
    let j = (a - pos) / c;
    assert(j * c == c * j) by (nonlinear_arith);
    vstd::arithmetic::div_mod::lemma_fundamental_div_mod_converse(p - pos, c, j, p - a);
}

/// The piece of a byte starts at or before it, and at or after `pos`.
proof fn lemma_piece_before(pos: int, c: int, p: int)
    requires
        c > 0,
        p >= pos,
    ensures
        pos <= pos + (p - pos) / c * c <= p,
{
    vstd::arithmetic::div_mod::lemma_fundamental_div_mod(p - pos, c);
    let q = (p - pos) / c;
    let r = (p - pos) % c;
    assert(0 <= r < c);
    assert(q >= 0 && q * c <= p - pos) by (nonlinear_arith)
        requires
            p - pos == c * q + r,
            0 <= r < c,
            c > 0,
            p - pos >= 0,
    ;
}

/// The untried block holding a byte is the block `bi` that holds it.
proof fn lemma_block_of(blocks: Seq<MapBlock>, total: int, bi: int, p: int)
    requires
        blocks_wf(blocks),
        0 <= bi < blocks.len(),
        in_todo(blocks[bi], total, p),
    ensures
        block_of(blocks, total, p) == blocks[bi],
{
    let k = choose|k: int| 0 <= k < blocks.len() && #[trigger] in_todo(blocks[k], total, p);
    if k < bi {
        assert(block_end(blocks[k]) <= blocks[bi].pos);
    } else if k > bi {
        assert(block_end(blocks[bi]) <= blocks[k].pos);
    }
}

/// The chunk and sector that an imaging run reads for a byte start at or before it.
proof fn lemma_reads_before(blocks: Seq<MapBlock>, total: int, chunk: int, ss: int, p: int)
    requires
        imaged_at(blocks, total, p),
        chunk > 0,
        ss > 0,
    ensures
        chunk_start(block_of(blocks, total, p), chunk, p) <= p,
        sector_start(block_of(blocks, total, p), chunk, ss, p) <= p,
{
    let b = block_of(blocks, total, p);
    lemma_piece_before(b.pos as int, chunk, p);
    lemma_piece_before(chunk_start(b, chunk, p), ss, p);
}

/// Recording the outcome of a read that starts past byte `p` leaves `p`'s status by reads.
proof fn lemma_read_status_kept(
    blocks: Seq<MapBlock>,
    total: int,
    chunk: int,
    ss: int,
    chunk_ok: Map<int, bool>,
    sector_ok: Map<int, bool>,
    p: int,
    a: int,
    v: bool,
)
    requires
        imaged_at(blocks, total, p),
        chunk > 0,
        ss > 0,
        p < a,
    ensures
        read_status(blocks, total, chunk, ss, chunk_ok.insert(a, v), sector_ok, p) == read_status(
            blocks,
            total,
            chunk,
            ss,
            chunk_ok,
            sector_ok,
            p,
        ),
        read_status(blocks, total, chunk, ss, chunk_ok, sector_ok.insert(a, v), p) == read_status(
            blocks,
            total,
            chunk,
            ss,
            chunk_ok,
            sector_ok,
            p,
        ),
{
    lemma_reads_before(blocks, total, chunk, ss, p);
}

/// A handled byte is a byte the run works on.
proof fn lemma_done_imaged(blocks: Seq<MapBlock>, total: int, bi: int, upto: int, p: int)
    requires
        done_upto(blocks, total, bi, upto, p),
        0 <= bi < blocks.len() ==> upto <= block_end(blocks[bi]) && upto <= total,
    ensures
        imaged_at(blocks, total, p),
{
    if !(exists|k: int| 0 <= k < bi && k < blocks.len() && #[trigger] in_todo(blocks[k], total, p)) {
        assert(in_todo(blocks[bi], total, p));
    }
}

/// When a run stops part way, each byte it works on has the status its reads give or the
/// status it had, and every other byte keeps its status.
proof fn lemma_partial_run(
    map0: Seq<MapBlock>,
    map: Seq<MapBlock>,
    src: Seq<u8>,
    dst: Seq<u8>,
    total: int,
    chunk: int,
    ss: int,
    chunk_ok: Map<int, bool>,
    sector_ok: Map<int, bool>,
    bi: int,
    upto: int,
)
    requires
        0 <= bi < map0.len() ==> upto <= block_end(map0[bi]) && upto <= total,
        reads_inv(map0, map, total, chunk, ss, chunk_ok, sector_ok, bi, upto),
        imaging_inv(map0, map, src, dst, total, bi, upto),
    ensures
        statuses_by_reads(map0, map, total, chunk, ss, chunk_ok, sector_ok, false),
        imaged_by_reads(map0, map, total, chunk, ss, false),
        forall|p: int| !imaged_at(map0, total, p) ==> #[trigger] status_at(map, p) == status_at(map0, p),
{
    reveal(imaging_inv);
    reveal(reads_inv);
    assert forall|p: int| !imaged_at(map0, total, p) implies #[trigger] status_at(map, p) == status_at(map0, p) by {
        if done_upto(map0, total, bi, upto, p) {
            lemma_done_imaged(map0, total, bi, upto, p);
        }
    }
    assert forall|p: int| #[trigger] imaged_at(map0, total, p) implies status_at(map, p) == read_status(
        map0,
        total,
        chunk,
        ss,
        chunk_ok,
        sector_ok,
        p,
    ) || status_at(map, p) == status_at(map0, p) by {
        if done_upto(map0, total, bi, upto, p) {
        }
    }    assert(statuses_by_reads(map0, map, total, chunk, ss, chunk_ok, sector_ok, false));
}

/// The run's invariant keeps the map well formed.
proof fn lemma_inv_wf(
    map0: Seq<MapBlock>,
    map: Seq<MapBlock>,
    src: Seq<u8>,
    dst: Seq<u8>,
    total: int,
    bi: int,
    upto: int,
)
    requires
        imaging_inv(map0, map, src, dst, total, bi, upto),
    ensures
        blocks_wf(map),
{
    reveal(imaging_inv);
}

/// Two descriptions of the same handled bytes give the same invariants.
proof fn lemma_move_on(
    map0: Seq<MapBlock>,
    map: Seq<MapBlock>,
    src: Seq<u8>,
    dst: Seq<u8>,
    total: int,
    chunk: int,
    ss: int,
    chunk_ok: Map<int, bool>,
    sector_ok: Map<int, bool>,
    bi: int,
    upto: int,
    bi2: int,
    upto2: int,
)
    requires
        forall|p: int| done_upto(map0, total, bi, upto, p) == done_upto(map0, total, bi2, upto2, p),
        imaging_inv(map0, map, src, dst, total, bi, upto),
        reads_inv(map0, map, total, chunk, ss, chunk_ok, sector_ok, bi, upto),
    ensures
        imaging_inv(map0, map, src, dst, total, bi2, upto2),
        reads_inv(map0, map, total, chunk, ss, chunk_ok, sector_ok, bi2, upto2),
        bad_seen(map0, map, total, bi, upto) == bad_seen(map0, map, total, bi2, upto2),
{
    reveal(imaging_inv);
    reveal(reads_inv);
    assert forall|p: int| #[trigger] done_upto(map0, total, bi2, upto2, p) implies rescued(map, src, dst, p) by {
        assert(done_upto(map0, total, bi, upto, p));
    }
    assert forall|p: int| !done_upto(map0, total, bi2, upto2, p) implies #[trigger] status_at(map, p) == status_at(map0, p) by {
        assert(!done_upto(map0, total, bi, upto, p));
    }
    assert forall|p: int| #[trigger] done_upto(map0, total, bi2, upto2, p) implies status_at(map, p) == read_status(
        map0,
        total,
        chunk,
        ss,
        chunk_ok,
        sector_ok,
        p,
    ) by {
        assert(done_upto(map0, total, bi, upto, p));
    }
    lemma_bad_seen_same(map0, map, total, bi, upto, bi2, upto2);
}

/// The facts about the block being imaged that the read steps rely on.
pub open spec fn step_in_block(map0: Seq<MapBlock>, total: int, bi: int, lo: int, len: int) -> bool {
    &&& blocks_wf(map0)
    &&& 0 <= bi < map0.len()
    &&& map0[bi].status == BlockStatus::NonTried
    &&& map0[bi].pos <= lo
    &&& len > 0
    &&& lo + len <= block_end(map0[bi])
    &&& lo + len <= total
}

/// Copying a chunk that could be read moves the reads invariant past it.
proof fn lemma_reads_chunk(
    map0: Seq<MapBlock>,
    map: Seq<MapBlock>,
    map2: Seq<MapBlock>,
    total: int,
    chunk: int,
    ss: int,
    chunk_ok: Map<int, bool>,
    sector_ok: Map<int, bool>,
    bi: int,
    lo: int,
    len: int,
)
    requires
        step_in_block(map0, total, bi, lo, len),
        chunk > 0,
        ss > 0,
        len <= chunk,
        (lo - map0[bi].pos) % chunk == 0,
        reads_inv(map0, map, total, chunk, ss, chunk_ok, sector_ok, bi, lo),
        forall|p: int|
            #![trigger status_at(map2, p)]
            status_at(map2, p) == (if lo <= p < lo + len {
                Some(BlockStatus::Finished)
            } else {
                status_at(map, p)
            }),
    ensures
        reads_inv(map0, map2, total, chunk, ss, chunk_ok.insert(lo, true), sector_ok, bi, lo + len),
{
    reveal(reads_inv);
    let cok2 = chunk_ok.insert(lo, true);
    assert forall|p: int| #[trigger] done_upto(map0, total, bi, lo + len, p) implies status_at(map2, p)
        == read_status(map0, total, chunk, ss, cok2, sector_ok, p) by {
        if lo <= p < lo + len {
            assert(in_todo(map0[bi], total, p));
            lemma_block_of(map0, total, bi, p);
            lemma_piece_start(map0[bi].pos as int, lo, chunk, p);
        } else {
            assert(done_upto(map0, total, bi, lo, p));
            lemma_done_before(map0, total, bi, lo, p);
            lemma_done_imaged(map0, total, bi, lo, p);
            lemma_read_status_kept(map0, total, chunk, ss, chunk_ok, sector_ok, p, lo, true);
        }
    }
}

/// Recording that the chunk at `lo` could not be read keeps the reads invariant.
proof fn lemma_reads_chunk_failed(
    map0: Seq<MapBlock>,
    map: Seq<MapBlock>,
    total: int,
    chunk: int,
    ss: int,
    chunk_ok: Map<int, bool>,
    sector_ok: Map<int, bool>,
    bi: int,
    lo: int,
)
    requires
        step_in_block(map0, total, bi, lo, 1),
        chunk > 0,
        ss > 0,
        reads_inv(map0, map, total, chunk, ss, chunk_ok, sector_ok, bi, lo),
    ensures
        reads_inv(map0, map, total, chunk, ss, chunk_ok.insert(lo, false), sector_ok, bi, lo),
{
    reveal(reads_inv);
    let cok2 = chunk_ok.insert(lo, false);
    assert forall|p: int| #[trigger] done_upto(map0, total, bi, lo, p) implies status_at(map, p)
        == read_status(map0, total, chunk, ss, cok2, sector_ok, p) by {
        lemma_done_before(map0, total, bi, lo, p);
        lemma_done_imaged(map0, total, bi, lo, p);
        lemma_read_status_kept(map0, total, chunk, ss, chunk_ok, sector_ok, p, lo, false);
    }
}

/// Marking the sector at `so` of the failed chunk at `c` by the outcome `ok` of its read
/// moves the reads invariant past it.
proof fn lemma_reads_sector(
    map0: Seq<MapBlock>,
    map: Seq<MapBlock>,
    map2: Seq<MapBlock>,
    total: int,
    chunk: int,
    ss: int,
    chunk_ok: Map<int, bool>,
    sector_ok: Map<int, bool>,
    bi: int,
    c: int,
    chunk_end: int,
    so: int,
    len: int,
    ok: bool,
)
    requires
        step_in_block(map0, total, bi, so, len),
        chunk > 0,
        ss > 0,
        len <= ss,
        map0[bi].pos <= c <= so,
        so + len <= chunk_end <= c + chunk,
        (c - map0[bi].pos) % chunk == 0,
        (so - c) % ss == 0,
        chunk_ok.contains_key(c) && !chunk_ok[c],
        reads_inv(map0, map, total, chunk, ss, chunk_ok, sector_ok, bi, so),
        forall|p: int|
            #![trigger status_at(map2, p)]
            status_at(map2, p) == (if so <= p < so + len {
                Some(if ok { BlockStatus::Finished } else { BlockStatus::BadSector })
            } else {
                status_at(map, p)
            }),
    ensures
        reads_inv(map0, map2, total, chunk, ss, chunk_ok, sector_ok.insert(so, ok), bi, so + len),
{
    reveal(reads_inv);
    let sok2 = sector_ok.insert(so, ok);
    assert forall|p: int| #[trigger] done_upto(map0, total, bi, so + len, p) implies status_at(map2, p)
        == read_status(map0, total, chunk, ss, chunk_ok, sok2, p) by {
        if so <= p < so + len {
            assert(in_todo(map0[bi], total, p));
            lemma_block_of(map0, total, bi, p);
            lemma_piece_start(map0[bi].pos as int, c, chunk, p);
            lemma_piece_start(c, so, ss, p);
        } else {
            assert(done_upto(map0, total, bi, so, p));
            lemma_done_before(map0, total, bi, so, p);
            lemma_done_imaged(map0, total, bi, so, p);
            lemma_read_status_kept(map0, total, chunk, ss, chunk_ok, sector_ok, p, so, ok);
        }
    }
}

/// At the end of a run every byte it works on has been handled, so the invariants give the
/// run's outcome.
proof fn lemma_run_complete(
    map0: Seq<MapBlock>,
    map: Seq<MapBlock>,
    src: Seq<u8>,
    dst: Seq<u8>,
    total: int,
    chunk: int,
    ss: int,
    chunk_ok: Map<int, bool>,
    sector_ok: Map<int, bool>,
    bi: int,
)
    requires
        bi == map0.len(),
        imaging_inv(map0, map, src, dst, total, bi, 0),
        reads_inv(map0, map, total, chunk, ss, chunk_ok, sector_ok, bi, 0),
    ensures
        blocks_wf(map),
        forall|p: int| imaged_at(map0, total, p) ==> rescued(map, src, dst, p),
        forall|p: int| !imaged_at(map0, total, p) ==> #[trigger] status_at(map, p) == status_at(map0, p),
        statuses_by_reads(map0, map, total, chunk, ss, chunk_ok, sector_ok, true),
        imaged_by_reads(map0, map, total, chunk, ss, true),
        bad_seen(map0, map, total, bi, 0) == bad_found(map0, map, total),
{
    reveal(imaging_inv);
    reveal(reads_inv);
    assert forall|p: int| imaged_at(map0, total, p) == done_upto(map0, total, bi, 0, p) by {
        if imaged_at(map0, total, p) {
            let k = choose|k: int| 0 <= k < map0.len() && #[trigger] in_todo(map0[k], total, p);
            assert(0 <= k < bi && k < map0.len() && in_todo(map0[k], total, p));
        }
    }
    if bad_found(map0, map, total) {
        let p = choose|p: int|
            #[trigger] imaged_at(map0, total, p) && status_at(map, p) == Some(BlockStatus::BadSector);
        assert(done_upto(map0, total, bi, 0, p));
    }
    if bad_seen(map0, map, total, bi, 0) {
        let p = choose|p: int|
            #[trigger] done_upto(map0, total, bi, 0, p) && status_at(map, p) == Some(BlockStatus::BadSector);
        assert(imaged_at(map0, total, p));
    }
    assert forall|p: int| imaged_at(map0, total, p) implies rescued(map, src, dst, p) by {
        assert(done_upto(map0, total, bi, 0, p));
    }
    assert forall|p: int| #[trigger] imaged_at(map0, total, p) implies status_at(map, p) == read_status(
        map0,
        total,
        chunk,
        ss,
        chunk_ok,
        sector_ok,
        p,
    ) by {
        assert(done_upto(map0, total, bi, 0, p));
    }
    assert(statuses_by_reads(map0, map, total, chunk, ss, chunk_ok, sector_ok, true));
}

/// A copy of the blocks of a map.
fn copy_blocks(v: &Vec<MapBlock>) -> (r: Vec<MapBlock>)
    ensures
        r@ == v@,
{
    let mut r: Vec<MapBlock> = Vec::new();
    let mut i: usize = 0;
    while i < v.len()
        invariant
            i <= v@.len(),
            r@ == v@.take(i as int),
        decreases v@.len() - i,
    {
        r.push(v[i]);
        proof {
            assert(v@.take(i + 1) =~= v@.take(i as int).push(v@[i as int]));
        }
        i += 1;
    }
    proof {
        assert(v@.take(v@.len() as int) =~= v@);
    }
    r
}

impl DiskImager {
    /// A session over the source's reported size, resuming `mapfile` or starting a map in
    /// which every byte is untried.
    pub fn new<S: BlockDevice + ?Sized>(source: &S, config: ImagerConfig, mapfile: Option<RecoveryMapFile>) -> (r: Self)
        requires
            config.sector_size > 0,
        ensures
            r.config().chunk_size == config.chunk_size,
            r.config().sector_size == config.sector_size,
            r.config().sync_mapfile_every_mb == config.sync_mapfile_every_mb,
            r.spec_stats().rescued_sectors == 0,
            r.spec_stats().bad_sectors == 0,
            r.spec_stats().sector_size == config.sector_size,
            mapfile matches Some(m) ==> r.spec_mapfile().blocks@ == m.blocks@,
            mapfile is None ==> blocks_wf(r.spec_mapfile().blocks@) && r.spec_mapfile().blocks@.len()
                == 1 && r.spec_mapfile().blocks@[0].pos == 0 && r.spec_mapfile().blocks@[0].status
                == BlockStatus::NonTried,
    {
        let total_size = source.total_size();
        let total_sectors = total_size / config.sector_size as u64;
        let mapfile = match mapfile {
            Some(m) => m,
            None => RecoveryMapFile::new_initial(total_size),
        };
        let stats = RecoveryStats::new(total_sectors, config.sector_size);
        DiskImager { config, mapfile, stats }
    }

    /// The session's settings.
    pub closed spec fn config(&self) -> ImagerConfig {
        self.config
    }

    /// The session's counters.
    pub closed spec fn spec_stats(&self) -> RecoveryStats {
        self.stats
    }

    /// The session's rescue map.
    pub closed spec fn spec_mapfile(&self) -> RecoveryMapFile {
        self.mapfile
    }

    /// Copies every untried block of the map from the source to the destination: in chunks,
    /// and where a chunk cannot be read, sector by sector, writing zeros for sectors that
    /// cannot be read. The map records each range as finished or as a bad sector, and the
    /// counters count the sectors. After every chunk `progress_callback` gets the counters,
    /// and the map when another `sync_mapfile_every_mb` MiB have been rescued since it was
    /// last handed out. Fails when a write to the destination fails.
    ///
    /// The chunks read are those of `chunk_size` bytes from each untried block's start (up
    /// to the block's end or the source's size), and the sectors read are those of
    /// `sector_size` bytes from the start of a chunk that could not be read. Each byte worked
    /// on ends finished when its chunk or else its sector could be read and a bad sector
    /// otherwise (`statuses_by_reads`); when a write fails, the bytes not reached yet keep
    /// their status.
    pub fn run_imaging<
        S: BlockDevice + ?Sized,
        D: BlockDevice + ?Sized,
        F: FnMut(&RecoveryStats, Option<&RecoveryMapFile>),
    >(&mut self, source: &mut S, dest: &mut D, progress_callback: F) -> (r: Result<()>)
        requires
            old(self).config().chunk_size > 0,
            old(self).config().sector_size > 0,
            blocks_bounded(old(self).spec_mapfile().blocks@),
            forall|a: &RecoveryStats, b: Option<&RecoveryMapFile>|
                call_requires(progress_callback, (a, b)),
        ensures
            final(source).data() == old(source).data(),
            final(self).config() == old(self).config(),
            final(self).spec_stats().total_sectors == old(self).spec_stats().total_sectors,
            final(self).spec_stats().sector_size == old(self).spec_stats().sector_size,
            final(self).spec_stats().rescued_sectors >= old(self).spec_stats().rescued_sectors,
            final(self).spec_stats().bad_sectors >= old(self).spec_stats().bad_sectors,
            !has_work(old(self).spec_mapfile().blocks@, old(source).reported_size() as int) ==> r is Ok,
            blocks_wf(old(self).spec_mapfile().blocks@) ==> imaged_by_reads(
                old(self).spec_mapfile().blocks@,
                final(self).spec_mapfile().blocks@,
                old(source).reported_size() as int,
                old(self).config().chunk_size as int,
                old(self).config().sector_size as int,
                r is Ok,
            ),
            blocks_wf(old(self).spec_mapfile().blocks@) ==> forall|p: int|
                !imaged_at(old(self).spec_mapfile().blocks@, old(source).reported_size() as int, p)
                    ==> #[trigger] status_at(final(self).spec_mapfile().blocks@, p) == status_at(
                    old(self).spec_mapfile().blocks@,
                    p,
                ),
            r is Ok && blocks_wf(old(self).spec_mapfile().blocks@) ==> {
                let map0 = old(self).spec_mapfile().blocks@;
                let map = final(self).spec_mapfile().blocks@;
                let total = old(source).reported_size() as int;
                &&& blocks_wf(map)
                &&& bad_counted(
                    bad_found(map0, map, total),
                    final(self).spec_stats().bad_sectors,
                    old(self).spec_stats().bad_sectors,
                )
                &&& forall|p: int|
                    imaged_at(map0, total, p) ==> rescued(
                        map,
                        old(source).data(),
                        final(dest).data(),
                        p,
                    )
                &&& forall|p: int|
                    !imaged_at(map0, total, p) ==> #[trigger] status_at(map, p) == status_at(map0, p)
            },
    {
        let ghost src = source.data();
        let ghost map0 = self.mapfile.blocks@;
        let ghost wf0 = blocks_wf(map0);
        let ghost mut cok: Map<int, bool> = Map::empty();
        let ghost mut sok: Map<int, bool> = Map::empty();
        let mut progress_callback = progress_callback;
        let total_size = source.total_size();
        let chunk_size = self.config.chunk_size;
        let sector_size = self.config.sector_size as usize;
        let zero_sector: Vec<u8> = vec![0u8; sector_size];
        let mut last_map_sync: u64 = 0;
        let blocks0 = copy_blocks(&self.mapfile.blocks);
        proof {
            if wf0 {
                reveal(imaging_inv);
                reveal(reads_inv);
                assert(imaging_inv(map0, self.mapfile.blocks@, src, dest.data(), total_size as int, 0, 0));
                assert(reads_inv(map0, self.mapfile.blocks@, total_size as int, chunk_size as int, sector_size as int, cok, sok, 0, 0));
            }
        }
        let mut bi: usize = 0;
        while bi < blocks0.len()
            invariant
                blocks0@ == map0,
                blocks_bounded(map0),
                src == source.data(),
                src == old(source).data(),
                total_size == source.reported_size(),
                total_size == old(source).reported_size(),
                map0 == old(self).mapfile.blocks@,
                chunk_size == self.config.chunk_size,
                sector_size == self.config.sector_size,
                self.config == old(self).config,
                chunk_size > 0,
                sector_size > 0,
                zero_sector@ == Seq::new(sector_size as nat, |i: int| 0u8),
                blocks_bounded(self.mapfile.blocks@),
                bi <= blocks0@.len(),
                wf0 == blocks_wf(map0),
                wf0 ==> imaging_inv(map0, self.mapfile.blocks@, src, dest.data(), total_size as int, bi as int, 0),
                wf0 ==> reads_inv(map0, self.mapfile.blocks@, total_size as int, chunk_size as int, sector_size as int, cok, sok, bi as int, 0),
                self.stats.total_sectors == old(self).stats.total_sectors,
                self.stats.sector_size == old(self).stats.sector_size,
                self.stats.rescued_sectors >= old(self).stats.rescued_sectors,
                self.stats.bad_sectors >= old(self).stats.bad_sectors,
                wf0 ==> bad_counted(
                    bad_seen(map0, self.mapfile.blocks@, total_size as int, bi as int, 0),
                    self.stats.bad_sectors,
                    old(self).stats.bad_sectors,
                ),
                forall|a: &RecoveryStats, b: Option<&RecoveryMapFile>|
                    call_requires(progress_callback, (a, b)),
            decreases blocks0@.len() - bi,
        {
            let b = blocks0[bi];
            if b.status == BlockStatus::NonTried {
                let block_start = b.pos;
                let full_end = b.pos + b.size;
                let block_end_off = if full_end < total_size {
                    full_end
                } else {
                    total_size
                };
                let mut offset = block_start;
                proof {
                    if wf0 {
                        assert forall|p: int| done_upto(map0, total_size as int, bi as int, 0, p)
                            == done_upto(map0, total_size as int, bi as int, offset as int, p) by {
                            lemma_block_start(map0, total_size as int, bi as int, p);
                        }
                        lemma_move_on(map0, self.mapfile.blocks@, src, dest.data(), total_size as int, chunk_size as int, sector_size as int, cok, sok, bi as int, 0, bi as int, offset as int);
                    }
                    assert((offset - block_start) % (chunk_size as int) == 0) by {
                        assert(offset - block_start == 0);
                    }
                }
                while offset < block_end_off
                    invariant
                        blocks0@ == map0,
                        blocks_bounded(map0),
                        src == source.data(),
                        src == old(source).data(),
                        total_size == source.reported_size(),
                        total_size == old(source).reported_size(),
                        map0 == old(self).mapfile.blocks@,
                        chunk_size == self.config.chunk_size,
                        sector_size == self.config.sector_size,
                        self.config == old(self).config,
                        chunk_size > 0,
                        sector_size > 0,
                        zero_sector@ == Seq::new(sector_size as nat, |i: int| 0u8),
                        blocks_bounded(self.mapfile.blocks@),
                        bi < blocks0@.len(),
                        b == map0[bi as int],
                        b.status == BlockStatus::NonTried,
                        block_start == b.pos,
                        block_end_off <= block_end(b),
                        block_end_off <= total_size,
                        block_start <= offset,
                        offset <= block_end_off || offset == block_start,
                        wf0 == blocks_wf(map0),
                        wf0 ==> imaging_inv(map0, self.mapfile.blocks@, src, dest.data(), total_size as int, bi as int, offset as int),
                        wf0 ==> reads_inv(map0, self.mapfile.blocks@, total_size as int, chunk_size as int, sector_size as int, cok, sok, bi as int, offset as int),
                        offset < block_end_off ==> (offset - block_start) % (chunk_size as int) == 0,
                        self.stats.total_sectors == old(self).stats.total_sectors,
                        self.stats.sector_size == old(self).stats.sector_size,
                        self.stats.rescued_sectors >= old(self).stats.rescued_sectors,
                        self.stats.bad_sectors >= old(self).stats.bad_sectors,
                        wf0 ==> bad_counted(
                            bad_seen(map0, self.mapfile.blocks@, total_size as int, bi as int, offset as int),
                            self.stats.bad_sectors,
                            old(self).stats.bad_sectors,
                        ),
                        forall|a: &RecoveryStats, b: Option<&RecoveryMapFile>|
                            call_requires(progress_callback, (a, b)),
                    decreases block_end_off - offset,
                {
                    proof {
                        assert(in_todo(map0[bi as int], total_size as int, offset as int));
                        assert(imaged_at(map0, total_size as int, offset as int));
                    }
                    let rest = block_end_off - offset;
                    let this_chunk: usize = if rest < chunk_size as u64 {
                        rest as usize
                    } else {
                        chunk_size
                    };
                    let mut chunk_buf: Vec<u8> = vec![0u8; this_chunk];
                    if source.read_exact_at(offset, chunk_buf.as_mut_slice()).is_ok() {
                        let ghost map_before = self.mapfile.blocks@;
                        let ghost dst_before = dest.data();
                        match dest.write_exact_at(offset, chunk_buf.as_slice()) {
                            Ok(()) => {},
                            Err(e) => {
                                proof {
                                    if wf0 {
                                        lemma_partial_run(map0, map_before, src, dst_before, total_size as int, chunk_size as int, sector_size as int, cok, sok, bi as int, offset as int);
                                    }
                                }
                                return Err(e);
                            },
                        }
                        proof {
                            if wf0 {
                                lemma_inv_wf(map0, map_before, src, dst_before, total_size as int, bi as int, offset as int);
                            }
                        }
                        self.stats.record_good_sectors((this_chunk / sector_size) as u64);
                        self.mapfile.update_range(offset, this_chunk as u64, BlockStatus::Finished);
                        proof {
                            if wf0 {
                                lemma_step(
                                    map0,
                                    map_before,
                                    self.mapfile.blocks@,
                                    src,
                                    dst_before,
                                    dest.data(),
                                    total_size as int,
                                    bi as int,
                                    offset as int,
                                    this_chunk as int,
                                    BlockStatus::Finished,
                                    chunk_buf@,
                                );
                                lemma_bad_step(
                                    map0,
                                    map_before,
                                    self.mapfile.blocks@,
                                    total_size as int,
                                    bi as int,
                                    offset as int,
                                    this_chunk as int,
                                    BlockStatus::Finished,
                                );
                                lemma_reads_chunk(
                                    map0,
                                    map_before,
                                    self.mapfile.blocks@,
                                    total_size as int,
                                    chunk_size as int,
                                    sector_size as int,
                                    cok,
                                    sok,
                                    bi as int,
                                    offset as int,
                                    this_chunk as int,
                                );
                            }
                            cok = cok.insert(offset as int, true);
                            if offset + this_chunk < block_end_off {
                                assert(this_chunk == chunk_size);
                                vstd::arithmetic::div_mod::lemma_mod_add_multiples_vanish(offset - block_start, chunk_size as int);
                            }
                        }
                        offset = offset + this_chunk as u64;
                    } else {
                        let chunk_end = offset + this_chunk as u64;
                        let mut sector_offset = offset;
                        proof {
                            if wf0 {
                                lemma_reads_chunk_failed(map0, self.mapfile.blocks@, total_size as int, chunk_size as int, sector_size as int, cok, sok, bi as int, offset as int);
                            }
                            cok = cok.insert(offset as int, false);
                            assert(sector_offset - offset == 0);
                            assert(0int % (sector_size as int) == 0) by (nonlinear_arith)
                                requires
                                    sector_size > 0,
                            ;
                        }
                        while sector_offset < chunk_end
                            invariant
                                blocks0@ == map0,
                                blocks_bounded(map0),
                                src == source.data(),
                                src == old(source).data(),
                                total_size == source.reported_size(),
                                total_size == old(source).reported_size(),
                                map0 == old(self).mapfile.blocks@,
                                chunk_size == self.config.chunk_size,
                                sector_size == self.config.sector_size,
                                self.config == old(self).config,
                                chunk_size > 0,
                                sector_size > 0,
                                zero_sector@ == Seq::new(sector_size as nat, |i: int| 0u8),
                                blocks_bounded(self.mapfile.blocks@),
                                bi < blocks0@.len(),
                                b == map0[bi as int],
                                b.status == BlockStatus::NonTried,
                                block_start == b.pos,
                                chunk_end <= block_end_off,
                                block_end_off <= block_end(b),
                                block_end_off <= total_size,
                                block_start <= offset <= sector_offset <= chunk_end,
                                has_work(map0, total_size as int),
                                wf0 == blocks_wf(map0),
                                wf0 ==> imaging_inv(map0, self.mapfile.blocks@, src, dest.data(), total_size as int, bi as int, sector_offset as int),
                                wf0 ==> reads_inv(map0, self.mapfile.blocks@, total_size as int, chunk_size as int, sector_size as int, cok, sok, bi as int, sector_offset as int),
                                (offset - block_start) % (chunk_size as int) == 0,
                                chunk_end - offset <= chunk_size,
                                sector_offset < chunk_end ==> (sector_offset - offset) % (sector_size as int) == 0,
                                this_chunk == chunk_end - offset,
                                this_chunk as int == (if block_end_off - offset < chunk_size {
                                    block_end_off - offset
                                } else {
                                    chunk_size as int
                                }),
                                cok.contains_key(offset as int) && !cok[offset as int],
                                self.stats.total_sectors == old(self).stats.total_sectors,
                                self.stats.sector_size == old(self).stats.sector_size,
                                self.stats.rescued_sectors >= old(self).stats.rescued_sectors,
                                self.stats.bad_sectors >= old(self).stats.bad_sectors,
                                wf0 ==> bad_counted(
                                    bad_seen(map0, self.mapfile.blocks@, total_size as int, bi as int, sector_offset as int),
                                    self.stats.bad_sectors,
                                    old(self).stats.bad_sectors,
                                ),
                            decreases chunk_end - sector_offset,
                        {
                            let srest = chunk_end - sector_offset;
                            let this_sector_len: usize = if srest < sector_size as u64 {
                                srest as usize
                            } else {
                                sector_size
                            };
                            let mut sec_buf: Vec<u8> = vec![0u8; this_sector_len];
                            let ghost map_before = self.mapfile.blocks@;
                            let ghost dst_before = dest.data();
                            let read_ok = source.read_exact_at(sector_offset, sec_buf.as_mut_slice()).is_ok();
                            let write = if read_ok {
                                dest.write_exact_at(sector_offset, sec_buf.as_slice())
                            } else {
                                dest.write_exact_at(sector_offset, &zero_sector.as_slice()[0..this_sector_len])
                            };
                            match write {
                                Ok(()) => {},
                                Err(e) => {
                                    proof {
                                        if wf0 {
                                            lemma_partial_run(map0, map_before, src, dst_before, total_size as int, chunk_size as int, sector_size as int, cok, sok, bi as int, sector_offset as int);
                                        }
                                    }
                                    return Err(e);
                                },
                            }
                            proof {
                                if wf0 {
                                    lemma_inv_wf(map0, map_before, src, dst_before, total_size as int, bi as int, sector_offset as int);
                                }
                            }
                            let status = if read_ok {
                                self.stats.record_good_sectors(1);
                                BlockStatus::Finished
                            } else {
                                self.stats.record_bad_sectors(1);
                                BlockStatus::BadSector
                            };
                            self.mapfile.update_range(sector_offset, this_sector_len as u64, status);
                            proof {
                                if wf0 {
                                    let written = if read_ok {
                                        sec_buf@
                                    } else {
                                        Seq::new(this_sector_len as nat, |i: int| 0u8)
                                    };
                                    if !read_ok {
                                        assert(zero_sector@.subrange(0, this_sector_len as int) =~= written);
                                    }
                                    lemma_step(
                                        map0,
                                        map_before,
                                        self.mapfile.blocks@,
                                        src,
                                        dst_before,
                                        dest.data(),
                                        total_size as int,
                                        bi as int,
                                        sector_offset as int,
                                        this_sector_len as int,
                                        status,
                                        written,
                                    );
                                    lemma_bad_step(
                                        map0,
                                        map_before,
                                        self.mapfile.blocks@,
                                        total_size as int,
                                        bi as int,
                                        sector_offset as int,
                                        this_sector_len as int,
                                        status,
                                    );
                                    lemma_reads_sector(
                                        map0,
                                        map_before,
                                        self.mapfile.blocks@,
                                        total_size as int,
                                        chunk_size as int,
                                        sector_size as int,
                                        cok,
                                        sok,
                                        bi as int,
                                        offset as int,
                                        chunk_end as int,
                                        sector_offset as int,
                                        this_sector_len as int,
                                        read_ok,
                                    );
                                }
                                sok = sok.insert(sector_offset as int, read_ok);
                                if sector_offset + this_sector_len < chunk_end {
                                    assert(this_sector_len == sector_size);
                                    vstd::arithmetic::div_mod::lemma_mod_add_multiples_vanish(sector_offset - offset, sector_size as int);
                                }
                            }
                            sector_offset = sector_offset + this_sector_len as u64;
                        }
                        proof {
                            if chunk_end < block_end_off {
                                assert(this_chunk == chunk_size);
                                vstd::arithmetic::div_mod::lemma_mod_add_multiples_vanish(offset - block_start, chunk_size as int);
                            }
                        }
                        offset = chunk_end;
                    }
                    progress_callback(&self.stats, None);
                    let rescued_mb = self.stats.rescued_bytes() / 1048576;
                    if rescued_mb.saturating_sub(last_map_sync) >= self.config.sync_mapfile_every_mb {
                        progress_callback(&self.stats, Some(&self.mapfile));
                        last_map_sync = rescued_mb;
                    }
                }
                proof {
                    if wf0 {
                        assert forall|p: int| done_upto(map0, total_size as int, bi as int, offset as int, p)
                            == done_upto(map0, total_size as int, bi + 1, 0, p) by {
                            lemma_block_end(map0, total_size as int, bi as int, block_end_off as int, p);
                            if offset != block_end_off {
                                assert(block_start >= block_end_off);
                                assert(done_upto(map0, total_size as int, bi as int, offset as int, p)
                                    == done_upto(map0, total_size as int, bi as int, block_end_off as int, p));
                            }
                        }
                        lemma_move_on(map0, self.mapfile.blocks@, src, dest.data(), total_size as int, chunk_size as int, sector_size as int, cok, sok, bi as int, offset as int, bi + 1, 0);
                    }
                }
            } else {
                proof {
                    if wf0 {
                        assert forall|p: int| done_upto(map0, total_size as int, bi as int, 0, p)
                            == done_upto(map0, total_size as int, bi + 1, 0, p) by {
                            lemma_block_end(map0, total_size as int, bi as int, 0, p);
                        }
                        lemma_move_on(map0, self.mapfile.blocks@, src, dest.data(), total_size as int, chunk_size as int, sector_size as int, cok, sok, bi as int, 0, bi + 1, 0);
                    }
                }
            }
            bi += 1;
        }
        proof {
            if wf0 {
                lemma_run_complete(map0, self.mapfile.blocks@, src, dest.data(), total_size as int, chunk_size as int, sector_size as int, cok, sok, bi as int);
            }
        }
        Ok(())
    }

    pub fn stats(&self) -> (r: &RecoveryStats)
        ensures
            *r == self.spec_stats(),
    {
        &self.stats
    }

    pub fn mapfile(&self) -> (r: &RecoveryMapFile)
        ensures
            *r == self.spec_mapfile(),
    {
        &self.mapfile
    }
}

} // verus!
