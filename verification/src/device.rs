//! Block-level storage: the interface every disk or image reader provides.

use vstd::prelude::*;
use crate::error::Result;

verus! {

/// The `n` bytes at byte offset `o`.
pub open spec fn bytes_from(dev: Seq<u8>, o: int, n: int) -> Seq<u8> {
    dev.subrange(o, o + n)
}

/// `later` is a read log that continues `earlier`.
pub open spec fn log_extends(earlier: Seq<(u64, nat, bool)>, later: Seq<(u64, nat, bool)>) -> bool {
    earlier.len() <= later.len() && later.take(earlier.len() as int) == earlier
}

/// The reads recorded in `later` after those of `earlier`.
pub open spec fn reads_since(earlier: Seq<(u64, nat, bool)>, later: Seq<(u64, nat, bool)>) -> Seq<(u64, nat, bool)> {
    later.skip(earlier.len() as int)
}

/// Recording one more read continues a log, with that read as the only new entry.
pub proof fn lemma_log_push(a: Seq<(u64, nat, bool)>, x: (u64, nat, bool))
    ensures
        log_extends(a, a.push(x)),
        reads_since(a, a.push(x)) == seq![x],
{
    assert(a.push(x).take(a.len() as int) =~= a);
    assert(reads_since(a, a.push(x)) =~= seq![x]);
}

/// A log that continues a continuation of `a` continues `a`, with the reads of both steps.
pub proof fn lemma_log_trans(a: Seq<(u64, nat, bool)>, b: Seq<(u64, nat, bool)>, c: Seq<(u64, nat, bool)>)
    requires
        log_extends(a, b),
        log_extends(b, c),
    ensures
        log_extends(a, c),
        reads_since(a, c) == reads_since(a, b) + reads_since(b, c),
{
    assert(c.take(a.len() as int) =~= c.take(b.len() as int).take(a.len() as int));
    assert(reads_since(a, c) =~= reads_since(a, b) + reads_since(b, c)) by {
        assert forall|i: int| a.len() <= i < b.len() implies #[trigger] c[i] == b[i] by {
            assert(c.take(b.len() as int)[i] == c[i]);
        }
    }
}

/// A block-level storage medium (image file or physical drive).
///
/// The spec functions name what the contracts speak of. They come with default definitions,
/// which verified code never relies on: code generic over the trait knows of a medium only
/// what the contracts state, and an implementation written outside verified code need not
/// define them.
pub trait BlockDevice {
    /// The bytes stored on the medium, as far as reads that succeed reveal them.
    closed spec fn data(&self) -> Seq<u8> {
        Seq::empty()
    }

    /// The reads made on the medium so far, in order: each one's offset, length and whether
    /// it succeeded.
    closed spec fn read_log(&self) -> Seq<(u64, nat, bool)> {
        Seq::empty()
    }

    /// Fills `buf` with the bytes at `offset`; on success they are the stored bytes, and a
    /// failure is an I/O error. The read is recorded in the read log.
    fn read_exact_at(&mut self, offset: u64, buf: &mut [u8]) -> (r: Result<()>)
        ensures
            final(self).read_log() == old(self).read_log().push((offset, old(buf)@.len(), r is Ok)),
            final(buf)@.len() == old(buf)@.len(),
            final(self).data() == old(self).data(),
            final(self).sector_size_spec() == old(self).sector_size_spec(),
            final(self).reported_size() == old(self).reported_size(),
            r matches Err(e) ==> e is Io,
            r is Ok ==> offset + old(buf)@.len() <= old(self).data().len() && final(buf)@
                == old(self).data().subrange(offset as int, offset + old(buf)@.len()),
    ;

    /// Writes `buf` at `offset`; on success the medium holds `buf` there and every other byte
    /// it held before is unchanged.
    fn write_exact_at(&mut self, offset: u64, buf: &[u8]) -> (r: Result<()>)
        ensures
            final(self).sector_size_spec() == old(self).sector_size_spec(),
            final(self).read_log() == old(self).read_log(),
            r is Ok ==> {
                &&& offset + buf@.len() <= final(self).data().len()
                &&& final(self).data().len() >= old(self).data().len()
                &&& final(self).data().subrange(offset as int, offset + buf@.len()) == buf@
                &&& forall|i: int|
                    0 <= i < old(self).data().len() && !(offset <= i < offset + buf@.len())
                        ==> #[trigger] final(self).data()[i] == old(self).data()[i]
            },
    ;

    /// The size the medium reports, in bytes.
    closed spec fn reported_size(&self) -> u64 {
        0
    }

    /// The size the medium reports, in bytes.
    fn total_size(&self) -> (r: u64)
        ensures
            r == self.reported_size(),
    ;

    /// The sector size the medium was opened with.
    closed spec fn sector_size_spec(&self) -> u32 {
        0
    }

    /// The sector size the medium was opened with.
    fn sector_size(&self) -> (r: u32)
        ensures
            r == self.sector_size_spec(),
    ;
}

/// A destination for the bytes of a recovered file.
///
/// As for `BlockDevice`, the spec function has a default definition that verified code never
/// relies on.
pub trait ByteSink {
    /// The bytes handed to the sink so far, whether or not the medium under it kept them.
    closed spec fn written(&self) -> Seq<u8> {
        Seq::empty()
    }

    /// Hands `bytes` to the sink; an error says the medium did not take them all.
    fn write_all(&mut self, bytes: &[u8]) -> (r: Result<()>)
        ensures
            final(self).written() == old(self).written() + bytes@,
    ;
}

/// A byte vector collects what is written to it.
impl ByteSink for Vec<u8> {
    open spec fn written(&self) -> Seq<u8> {
        self@
    }

    fn write_all(&mut self, bytes: &[u8]) -> (r: Result<()>) {
        let ghost before = self@;
        self.extend_from_slice(bytes);
        assert(self@ =~= before + bytes@);
        Ok(())
    }
}

/// An answer to a size query that gives a size: it came back, and is positive.
pub open spec fn gives_size(answer: Option<i64>) -> bool {
    answer matches Some(v) && v > 0
}

/// The size of a medium from the answers to three size queries asked in turn (the file size,
/// the disk length, the drive geometry): the first that gives a size, or 0 when none does.
pub fn device_size_from(file_size: Option<i64>, length_info: Option<i64>, geometry_size: Option<i64>) -> (r: u64)
    ensures
        gives_size(file_size) ==> r == file_size->0,
        !gives_size(file_size) && gives_size(length_info) ==> r == length_info->0,
        !gives_size(file_size) && !gives_size(length_info) && gives_size(geometry_size) ==> r
            == geometry_size->0,
        !gives_size(file_size) && !gives_size(length_info) && !gives_size(geometry_size) ==> r == 0,
{
    if let Some(v) = file_size {
        if v > 0 {
            return v as u64;
        }
    }
    if let Some(v) = length_info {
        if v > 0 {
            return v as u64;
        }
    }
    if let Some(v) = geometry_size {
        if v > 0 {
            return v as u64;
        }
    }
    0
}

} // verus!
