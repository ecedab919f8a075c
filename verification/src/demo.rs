//! A small synthetic disk image to try the tools on: a protective MBR, a GPT with one data
//! partition, an NTFS volume with three MFT records, and carvable files in unallocated space.

use vstd::prelude::*;
use crate::crc::{crc32, crc32_of};
use crate::endian::{bytes_at, le16, le32, le64};
use crate::gpt::{gpt_crc_input, gpt_signature, is_valid_gpt_header, slice_to_vec};
use crate::mbr::has_boot_signature;
use crate::vbr::{is_ntfs_boot_sector, ntfs_oem};

verus! {

/// `a` and `b` have one length and agree outside `[lo, hi)`.
pub open spec fn same_outside(a: Seq<u8>, b: Seq<u8>, lo: int, hi: int) -> bool {
    &&& a.len() == b.len()
    &&& forall|i: int| 0 <= i < a.len() && !(lo <= i < hi) ==> #[trigger] a[i] == b[i]
}

/// Writes one byte.
fn put_u8(v: &mut Vec<u8>, off: usize, x: u8)
    requires
        off < old(v)@.len(),
    ensures
        final(v)@[off as int] == x,
        same_outside(final(v)@, old(v)@, off as int, off + 1),
{
    v.set(off, x);
}

/// Writes a little-endian `u16`.
fn put_le16(v: &mut Vec<u8>, off: usize, x: u16)
    requires
        off + 2 <= old(v)@.len(),
    ensures
        le16(final(v)@, off as int) == x,
        same_outside(final(v)@, old(v)@, off as int, off + 2),
{
    let _n = v.len();
    assert(x == (x & 0xff) + 256 * (x >> 8) && (x & 0xff) < 256 && (x >> 8) < 256) by (bit_vector);
    let b0 = (x & 0xff) as u8;
    let b1 = (x >> 8) as u8;
    v.set(off, b0);
    v.set(off + 1, b1);
}

/// Writes a little-endian `u32`.
fn put_le32(v: &mut Vec<u8>, off: usize, x: u32)
    requires
        off + 4 <= old(v)@.len(),
    ensures
        le32(final(v)@, off as int) == x,
        same_outside(final(v)@, old(v)@, off as int, off + 4),
{
    let _n = v.len();
    assert(x == (x & 0xff) + 256 * ((x >> 8) & 0xff) + 65536 * ((x >> 16) & 0xff) + 16777216 * (x
        >> 24) && (x & 0xff) < 256 && ((x >> 8) & 0xff) < 256 && ((x >> 16) & 0xff) < 256 && (x >> 24)
        < 256) by (bit_vector);
    let b0 = (x & 0xff) as u8;
    let b1 = ((x >> 8) & 0xff) as u8;
    let b2 = ((x >> 16) & 0xff) as u8;
    let b3 = (x >> 24) as u8;
    v.set(off, b0);
    v.set(off + 1, b1);
    v.set(off + 2, b2);
    v.set(off + 3, b3);
}

/// Writes a little-endian `u64`.
fn put_le64(v: &mut Vec<u8>, off: usize, x: u64)
    requires
        off + 8 <= old(v)@.len(),
    ensures
        le64(final(v)@, off as int) == x,
        same_outside(final(v)@, old(v)@, off as int, off + 8),
{
    let _n = v.len();
    assert(x == (x & 0xffff_ffff) + 4294967296 * (x >> 32) && (x & 0xffff_ffff) <= 0xffff_ffff && (x
        >> 32) <= 0xffff_ffff) by (bit_vector);
    let lo = (x & 0xffff_ffff) as u32;
    let hi = (x >> 32) as u32;
    put_le32(v, off, lo);
    put_le32(v, off + 4, hi);
}

/// Copies `b` to `v[off..]`.
fn put_bytes(v: &mut Vec<u8>, off: usize, b: &[u8])
    requires
        off + b@.len() <= old(v)@.len(),
    ensures
        final(v)@.subrange(off as int, off + b@.len()) == b@,
        same_outside(final(v)@, old(v)@, off as int, off + b@.len()),
{
    let n = b.len();
    let vl = v.len();
    let mut i: usize = 0;
    while i < n
        invariant
            n == b@.len(),
            vl == v@.len(),
            off + n <= vl,
            i <= n,
            same_outside(v@, old(v)@, off as int, off + i),
            forall|j: int| 0 <= j < i ==> v@[off + j] == b@[j],
        decreases n - i,
    {
        v.set(off + i, b[i]);
        i += 1;
    }
    assert(v@.subrange(off as int, off + n) =~= b@);
}

/// The UTF-16 code units of one character.
pub open spec fn utf16_of_char(c: char) -> Seq<u16> {
    let n = c as u32;
    if n < 0x10000 {
        seq![n as u16]
    } else {
        seq![(0xD800 + (n - 0x10000) / 0x400) as u16, (0xDC00 + (n - 0x10000) % 0x400) as u16]
    }
}

/// The UTF-16 code units of a text.
pub open spec fn utf16_of(s: Seq<char>) -> Seq<u16>
    decreases s.len(),
{
    if s.len() == 0 {
        Seq::empty()
    } else {
        utf16_of(s.drop_last()) + utf16_of_char(s.last())
    }
}

/// Encodes a text in UTF-16.
pub fn encode_utf16(s: &str) -> (r: Vec<u16>)
    ensures
        r@ == utf16_of(s@),
{
    let n = s.unicode_len();
    let mut r: Vec<u16> = Vec::new();
    let mut i: usize = 0;
    while i < n
        invariant
            n == s@.len(),
            i <= n,
            r@ == utf16_of(s@.take(i as int)),
        decreases n - i,
    {
        let c = s.get_char(i);
        let ghost before = r@;
        let u = c as u32;
        if u < 0x10000 {
            r.push(u as u16);
        } else {
            let m = u - 0x10000;
            r.push((0xD800 + m / 0x400) as u16);
            r.push((0xDC00 + m % 0x400) as u16);
        }
        proof {
            assert(s@.take(i + 1).drop_last() =~= s@.take(i as int));
            assert(s@.take(i + 1).last() == c);
            assert(r@ =~= before + utf16_of_char(c));
        }
        i += 1;
    }
    proof {
        assert(s@.take(n as int) =~= s@);
    }
    r
}

/// The bytes of a text, one per character (the low byte of its code point).
pub open spec fn byte_text(s: Seq<char>) -> Seq<u8> {
    Seq::new(s.len(), |i: int| (s[i] as u32) as u8)
}

/// The bytes of an ASCII text.
fn text_bytes(s: &str) -> (r: Vec<u8>)
    ensures
        r@ == byte_text(s@),
{
    let n = s.unicode_len();
    let mut r: Vec<u8> = Vec::new();
    let mut i: usize = 0;
    while i < n
        invariant
            n == s@.len(),
            i <= n,
            r@ == byte_text(s@.take(i as int)),
        decreases n - i,
    {
        let c = s.get_char(i);
        r.push((c as u32) as u8);
        proof {
            assert(r@ =~= byte_text(s@.take(i + 1)));
        }
        i += 1;
    }
    proof {
        assert(s@.take(n as int) =~= s@);
    }
    r
}


/// The timestamps of the sample records (2021-01-01 as a FILETIME).
pub open spec fn sample_filetime() -> u64 {
    132539328000000000
}

/// The length of a resident attribute with a value of `value_len` bytes, rounded up to 8.
pub open spec fn resident_attr_len(value_len: nat) -> int {
    (24 + value_len + 7) as int / 8 * 8
}

/// Where the `$DATA` attribute of a sample record starts.
pub open spec fn sample_data_at(name_len: nat) -> int {
    128 + resident_attr_len(66 + 2 * name_len)
}

/// Where the end marker of a sample record stands.
pub open spec fn sample_end_at(name_len: nat, content_len: nat) -> int {
    sample_data_at(name_len) + if content_len > 0 {
        resident_attr_len(content_len)
    } else {
        0
    }
}

/// The header of a sample record: `FILE`, update sequence at 48 with 3 entries, sequence and
/// link count 1, first attribute at 56, in-use flag (and directory flag).
#[verifier::opaque]
pub open spec fn sample_header(r: Seq<u8>, record_number: u64, is_dir: bool) -> bool {
    &&& r[0] == 0x46 && r[1] == 0x49 && r[2] == 0x4C && r[3] == 0x45
    &&& le16(r, 4) == 48
    &&& le16(r, 6) == 3
    &&& le16(r, 16) == 1
    &&& le16(r, 18) == 1
    &&& le16(r, 20) == 56
    &&& le16(r, 22) == (if is_dir { 3u16 } else { 1u16 })
    &&& le32(r, 44) == record_number as u32
    &&& le16(r, 48) == 0x1234
    &&& r[50] == 0xAA && r[51] == 0x55 && r[52] == 0 && r[53] == 0
}

/// The resident `$STANDARD_INFORMATION` attribute at 56, with two timestamps.
#[verifier::opaque]
pub open spec fn sample_std_info(r: Seq<u8>) -> bool {
    &&& le32(r, 56) == 0x10
    &&& le32(r, 60) == 72
    &&& r[64] == 0
    &&& le32(r, 72) == 48
    &&& le16(r, 76) == 24
    &&& le64(r, 80) == sample_filetime()
    &&& le64(r, 88) == sample_filetime()
}

/// The resident `$FILE_NAME` attribute at 128: parent reference with sequence 1, timestamp,
/// sizes, name length, Win32 namespace and the name's code units.
#[verifier::opaque]
pub open spec fn sample_file_name(r: Seq<u8>, name: Seq<u16>, parent: u64, content_len: nat) -> bool {
    &&& le32(r, 128) == 0x30
    &&& le32(r, 132) == resident_attr_len(66 + 2 * name.len())
    &&& r[136] == 0
    &&& le32(r, 144) == 66 + 2 * name.len()
    &&& le16(r, 148) == 24
    &&& le64(r, 152) == (parent | 0x1_0000_0000_0000u64)
    &&& le64(r, 160) == sample_filetime()
    &&& le64(r, 192) == content_len
    &&& le64(r, 200) == content_len
    &&& r[216] == name.len() as u8
    &&& r[217] == 1
    &&& forall|k: int| 0 <= k < name.len() ==> le16(r, 218 + 2 * k) == #[trigger] name[k]
}

/// The resident `$DATA` attribute at `at` holding `content`.
#[verifier::opaque]
pub open spec fn sample_data(r: Seq<u8>, at: int, content: Seq<u8>) -> bool {
    &&& le32(r, at) == 0x80
    &&& le32(r, at + 4) == resident_attr_len(content.len())
    &&& r[at + 8] == 0
    &&& le32(r, at + 16) == content.len()
    &&& le16(r, at + 20) == 24
    &&& r.subrange(at + 24, at + 24 + content.len()) == content
}

/// A sample MFT record of 1024 bytes as the demo image holds it.
#[verifier::opaque]
pub open spec fn sample_record(
    r: Seq<u8>,
    record_number: u64,
    name: Seq<u16>,
    parent: u64,
    is_dir: bool,
    content: Seq<u8>,
) -> bool {
    &&& r.len() == 1024
    &&& sample_header(r, record_number, is_dir)
    &&& sample_std_info(r)
    &&& sample_file_name(r, name, parent, content.len())
    &&& content.len() > 0 ==> sample_data(r, sample_data_at(name.len()), content)
    &&& le32(r, sample_end_at(name.len(), content.len())) == 0xFFFF_FFFF
    &&& le16(r, 510) == 0x1234
    &&& le16(r, 1022) == 0x1234
}

fn write_sample_header(buf: &mut Vec<u8>, record_number: u64, is_dir: bool)
    requires
        old(buf)@.len() == 1024,
    ensures
        sample_header(final(buf)@, record_number, is_dir),
        same_outside(final(buf)@, old(buf)@, 0, 56),
{
    put_u8(buf, 0, 0x46);
    put_u8(buf, 1, 0x49);
    put_u8(buf, 2, 0x4C);
    put_u8(buf, 3, 0x45);
    put_le16(buf, 4, 48);
    put_le16(buf, 6, 3);
    put_le16(buf, 16, 1);
    put_le16(buf, 18, 1);
    put_le16(buf, 20, 56);
    let flags: u16 = if is_dir { 3 } else { 1 };
    put_le16(buf, 22, flags);
    put_le32(buf, 44, record_number as u32);
    put_le16(buf, 48, 0x1234);
    put_u8(buf, 50, 0xAA);
    put_u8(buf, 51, 0x55);
    put_u8(buf, 52, 0);
    put_u8(buf, 53, 0);
    reveal(sample_header);
}

fn write_sample_std_info(buf: &mut Vec<u8>)
    requires
        old(buf)@.len() == 1024,
    ensures
        sample_std_info(final(buf)@),
        same_outside(final(buf)@, old(buf)@, 56, 128),
{
    let ft: u64 = 132539328000000000;
    put_le32(buf, 56, 0x10);
    put_le32(buf, 60, 72);
    put_u8(buf, 64, 0);
    put_le32(buf, 72, 48);
    put_le16(buf, 76, 24);
    put_le64(buf, 80, ft);
    put_le64(buf, 88, ft);
    reveal(sample_std_info);
}

fn write_sample_file_name(buf: &mut Vec<u8>, name: &Vec<u16>, parent_rec: u64, content_len: usize)
    requires
        old(buf)@.len() == 1024,
        218 + 2 * name@.len() <= 510,
    ensures
        sample_file_name(final(buf)@, name@, parent_rec, content_len as nat),
        same_outside(final(buf)@, old(buf)@, 128, 128 + resident_attr_len(66 + 2 * name@.len())),
{
    let ft: u64 = 132539328000000000;
    let n = name.len();
    let fn_val_len = 66 + 2 * n;
    let fn_record_len = (24 + fn_val_len + 7) / 8 * 8;
    let ghost hi = 128 + resident_attr_len(66 + 2 * name@.len());
    let ghost start = buf@;
    put_le32(buf, 128, 0x30);
    put_le32(buf, 132, fn_record_len as u32);
    put_u8(buf, 136, 0);
    put_le32(buf, 144, fn_val_len as u32);
    put_le16(buf, 148, 24);
    put_le64(buf, 152, parent_rec | 0x1_0000_0000_0000u64);
    put_le64(buf, 160, ft);
    put_le64(buf, 192, content_len as u64);
    put_le64(buf, 200, content_len as u64);
    put_u8(buf, 216, n as u8);
    put_u8(buf, 217, 1);
    assert(same_outside(buf@, start, 128, hi));
    let ghost fixed = buf@;
    assert(le32(fixed, 128) == 0x30);
    assert(le32(fixed, 132) == resident_attr_len(66 + 2 * name@.len()));
    assert(le32(fixed, 144) == 66 + 2 * name@.len());
    assert(le16(fixed, 148) == 24);
    assert(le64(fixed, 152) == (parent_rec | 0x1_0000_0000_0000u64));
    assert(le64(fixed, 160) == sample_filetime());
    assert(le64(fixed, 192) == content_len);
    assert(le64(fixed, 200) == content_len);
    let mut i: usize = 0;
    while i < n
        invariant
            n == name@.len(),
            218 + 2 * n <= 510,
            buf@.len() == 1024,
            i <= n,
            forall|j: int| 0 <= j < 218 ==> #[trigger] buf@[j] == fixed[j],
            forall|j: int| 218 + 2 * n <= j < 1024 ==> #[trigger] buf@[j] == fixed[j],
            forall|k: int| 0 <= k < i ==> le16(buf@, 218 + 2 * k) == #[trigger] name@[k],
            same_outside(fixed, start, 128, hi),
        decreases n - i,
    {
        put_le16(buf, 218 + 2 * i, name[i]);
        i += 1;
    }
    assert(same_outside(buf@, start, 128, hi));
    reveal(sample_file_name);
}

fn write_sample_data(buf: &mut Vec<u8>, at: usize, content: &[u8])
    requires
        old(buf)@.len() == 1024,
        at + resident_attr_len(content@.len()) <= 1024,
    ensures
        sample_data(final(buf)@, at as int, content@),
        same_outside(final(buf)@, old(buf)@, at as int, at + resident_attr_len(content@.len())),
{
    let len = content.len();
    let rec_len = (24 + len + 7) / 8 * 8;
    let ghost start = buf@;
    let ghost hi = at + resident_attr_len(content@.len());
    put_le32(buf, at, 0x80);
    put_le32(buf, at + 4, rec_len as u32);
    put_u8(buf, at + 8, 0);
    put_le32(buf, at + 16, len as u32);
    put_le16(buf, at + 20, 24);
    let ghost fixed = buf@;
    put_bytes(buf, at + 24, content);
    assert(le32(buf@, at as int) == le32(fixed, at as int));
    assert(le32(buf@, at + 4) == le32(fixed, at + 4));
    assert(le32(buf@, at + 16) == le32(fixed, at + 16));
    assert(le16(buf@, at + 20) == le16(fixed, at + 20));
    assert(same_outside(buf@, start, at as int, hi));
    reveal(sample_data);
}

/// Clears `buf` and writes a sample record into it: header, `$STANDARD_INFORMATION`,
/// `$FILE_NAME` with the name and parent, resident `$DATA` when `content` is not empty, the
/// end marker and the update sequence tags at the end of both sectors.
fn write_sample_mft_record(
    buf: &mut Vec<u8>,
    record_number: u64,
    name: &str,
    parent_rec: u64,
    is_dir: bool,
    content: &[u8],
)
    requires
        old(buf)@.len() == 1024,
        sample_end_at(utf16_of(name@).len(), content@.len()) + 4 <= 510,
    ensures
        final(buf)@.len() == 1024,
        sample_record(final(buf)@, record_number, utf16_of(name@), parent_rec, is_dir, content@),
{
    let mut z: usize = 0;
    while z < 1024
        invariant
            buf@.len() == 1024,
            z <= 1024,
        decreases 1024 - z,
    {
        buf.set(z, 0);
        z += 1;
    }
    write_sample_header(buf, record_number, is_dir);
    let ghost h = buf@;
    write_sample_std_info(buf);
    let ghost si = buf@;
    let units = encode_utf16(name);
    let n = units.len();
    write_sample_file_name(buf, &units, parent_rec, content.len());
    let ghost fname = buf@;
    let data_at = 128 + (24 + 66 + 2 * n + 7) / 8 * 8;
    let mut end_at = data_at;
    if content.len() > 0 {
        write_sample_data(buf, data_at, content);
        end_at = data_at + (24 + content.len() + 7) / 8 * 8;
    }
    let ghost data = buf@;
    put_le32(buf, end_at, 0xFFFF_FFFF);
    put_le16(buf, 510, 0x1234);
    put_le16(buf, 1022, 0x1234);
    proof {
        reveal(sample_record);
        let r = buf@;
        lemma_header_kept(si, h, record_number, is_dir, 56, 128);
        lemma_header_kept(fname, si, record_number, is_dir, 128, 128 + resident_attr_len(66 + 2 * n as nat));
        lemma_std_info_kept(fname, si, 128, 128 + resident_attr_len(66 + 2 * n as nat));
        if content@.len() > 0 {
            let dhi = data_at + resident_attr_len(content@.len());
            lemma_header_kept(data, fname, record_number, is_dir, data_at as int, dhi);
            lemma_std_info_kept(data, fname, data_at as int, dhi);
            lemma_file_name_kept(data, fname, units@, parent_rec, content@.len(), data_at as int, dhi);
        }
        assert(same_outside(r, data, end_at as int, 1024));
        lemma_header_kept(r, data, record_number, is_dir, end_at as int, 1024);
        lemma_std_info_kept(r, data, end_at as int, 1024);
        lemma_file_name_kept(r, data, units@, parent_rec, content@.len(), end_at as int, 1024);
        if content@.len() > 0 {
            lemma_data_kept(r, data, data_at as int, content@, end_at as int, 1024);
        }
    }
}

proof fn lemma_header_kept(a: Seq<u8>, b: Seq<u8>, record_number: u64, is_dir: bool, lo: int, hi: int)
    requires
        sample_header(b, record_number, is_dir),
        b.len() == 1024,
        same_outside(a, b, lo, hi),
        56 <= lo,
    ensures
        sample_header(a, record_number, is_dir),
{
    reveal(sample_header);
}

proof fn lemma_std_info_kept(a: Seq<u8>, b: Seq<u8>, lo: int, hi: int)
    requires
        sample_std_info(b),
        b.len() == 1024,
        same_outside(a, b, lo, hi),
        96 <= lo,
    ensures
        sample_std_info(a),
{
    reveal(sample_std_info);
}

proof fn lemma_file_name_kept(
    a: Seq<u8>,
    b: Seq<u8>,
    name: Seq<u16>,
    parent: u64,
    content_len: nat,
    lo: int,
    hi: int,
)
    requires
        sample_file_name(b, name, parent, content_len),
        b.len() == 1024,
        218 + 2 * name.len() <= 1024,
        same_outside(a, b, lo, hi),
        218 + 2 * name.len() <= lo,
    ensures
        sample_file_name(a, name, parent, content_len),
{
    reveal(sample_file_name);
    assert forall|k: int| 0 <= k < name.len() implies le16(a, 218 + 2 * k) == #[trigger] name[k] by {
        assert(le16(b, 218 + 2 * k) == name[k]);
    }
}

proof fn lemma_data_kept(a: Seq<u8>, b: Seq<u8>, at: int, content: Seq<u8>, lo: int, hi: int)
    requires
        sample_data(b, at, content),
        0 <= at,
        at + 24 + content.len() <= b.len(),
        same_outside(a, b, lo, hi),
        at + 24 + content.len() <= lo,
    ensures
        sample_data(a, at, content),
{
    reveal(sample_data);
    assert(a.subrange(at + 24, at + 24 + content.len()) =~= b.subrange(at + 24, at + 24 + content.len()));
}

/// Size of the demo image: 12 MiB.
pub const DEMO_IMAGE_SIZE: usize = 12582912;

/// Byte offset of the NTFS boot sector (LBA 2048).
pub const DEMO_VBR_AT: usize = 1048576;

/// Byte offset of the MFT (cluster 4 of the volume, 4096-byte clusters).
pub const DEMO_MFT_AT: usize = 1064960;

/// Byte offset of the unallocated area holding the carvable files (8 MiB).
pub const DEMO_CARVE_AT: usize = 8388608;

/// The protective MBR: boot signature, disk signature, one entry of type `0xEE` from LBA 1
/// over 24575 sectors.
#[verifier::opaque]
pub open spec fn demo_mbr(s: Seq<u8>) -> bool {
    &&& has_boot_signature(s)
    &&& le32(s, 440) == 0xDEAD_BEEF
    &&& s[446] == 0
    &&& s[450] == 0xEE
    &&& le32(s, 454) == 1
    &&& le32(s, 458) == 24575
}

/// The disk GUID of the demo GPT.
pub open spec fn demo_disk_guid() -> Seq<u8> {
    seq![0x11u8, 0x22, 0x33, 0x44, 0x55, 0x66, 0x77, 0x88, 0x99, 0xAA, 0xBB, 0xCC, 0xDD, 0xEE, 0xFF, 0x00]
}

/// The partition type GUID "Microsoft basic data" as laid out on disk.
pub open spec fn basic_data_type_bytes() -> Seq<u8> {
    seq![0xA2u8, 0xA0, 0xD0, 0xEB, 0xE5, 0xB9, 0x33, 0x44, 0x87, 0xC0, 0x68, 0xB6, 0xB7, 0x26, 0x99, 0xC7]
}

/// The fields of the demo GPT header sector (CRCs aside).
#[verifier::opaque]
pub open spec fn demo_gpt_header(h: Seq<u8>) -> bool {
    &&& h.len() == 512
    &&& bytes_at(h, 0, gpt_signature())
    &&& le32(h, 8) == 0x0001_0000
    &&& le32(h, 12) == 92
    &&& le64(h, 24) == 1
    &&& le64(h, 32) == 24575
    &&& le64(h, 40) == 34
    &&& le64(h, 48) == 24542
    &&& h.subrange(56, 72) == demo_disk_guid()
    &&& le64(h, 72) == 2
    &&& le32(h, 80) == 128
    &&& le32(h, 84) == 128
}

/// The demo partition array: one basic data partition over LBA 2048 to 10239 named
/// "Data Partition", every other entry empty.
#[verifier::opaque]
pub open spec fn demo_gpt_array(a: Seq<u8>) -> bool {
    &&& a.len() == 16384
    &&& a.subrange(0, 16) == basic_data_type_bytes()
    &&& a.subrange(16, 32) == Seq::new(16, |i: int| 0x42u8)
    &&& le64(a, 32) == 2048
    &&& le64(a, 40) == 10239
    &&& forall|k: int| 0 <= k < utf16_of("Data Partition"@).len() ==> le16(a, 56 + 2 * k)
        == #[trigger] utf16_of("Data Partition"@)[k]
    &&& forall|i: int| 128 <= i < 16384 ==> #[trigger] a[i] == 0
}

/// The NTFS boot sector of the demo volume: 512-byte sectors, 8 sectors per cluster, 8192
/// sectors, MFT at cluster 4, mirror at cluster 2, 1024-byte records and index blocks.
#[verifier::opaque]
pub open spec fn demo_vbr(s: Seq<u8>) -> bool {
    &&& is_ntfs_boot_sector(s)
    &&& le16(s, 11) == 512
    &&& s[13] == 8
    &&& le64(s, 40) == 8192
    &&& le64(s, 48) == 4
    &&& le64(s, 56) == 2
    &&& s[64] == 0xF6
    &&& s[68] == 0xF6
    &&& le64(s, 72) == 0xA1B2_C3D4_E5F6_0718
}

fn write_demo_mbr(disk: &mut Vec<u8>)
    requires
        old(disk)@.len() == DEMO_IMAGE_SIZE,
    ensures
        demo_mbr(final(disk)@.subrange(0, 512)),
        same_outside(final(disk)@, old(disk)@, 0, 512),
{
    put_u8(disk, 510, 0x55);
    put_u8(disk, 511, 0xAA);
    put_le32(disk, 440, 0xDEAD_BEEF);
    put_u8(disk, 446, 0x00);
    put_u8(disk, 450, 0xEE);
    put_le32(disk, 454, 1);
    put_le32(disk, 458, 24575);
    let ghost s = disk@.subrange(0, 512);
    assert(le16(s, 510) == 0xAA55);
    assert(le32(s, 440) == le32(disk@, 440));
    assert(le32(s, 454) == le32(disk@, 454));
    assert(le32(s, 458) == le32(disk@, 458));
    reveal(demo_mbr);
}

fn write_demo_gpt_header(disk: &mut Vec<u8>)
    requires
        old(disk)@.len() == DEMO_IMAGE_SIZE,
    ensures
        demo_gpt_header(final(disk)@.subrange(512, 1024)),
        same_outside(final(disk)@, old(disk)@, 512, 1024),
{
    let sig: [u8; 8] = [0x45u8, 0x46, 0x49, 0x20, 0x50, 0x41, 0x52, 0x54];
    put_bytes(disk, 512, &sig);
    let ghost d1 = disk@;
    put_le32(disk, 520, 0x0001_0000);
    put_le32(disk, 524, 92);
    put_le64(disk, 536, 1);
    put_le64(disk, 544, 24575);
    put_le64(disk, 552, 34);
    put_le64(disk, 560, 24542);
    let guid: [u8; 16] = [0x11u8, 0x22, 0x33, 0x44, 0x55, 0x66, 0x77, 0x88, 0x99, 0xAA, 0xBB, 0xCC, 0xDD, 0xEE, 0xFF, 0x00];
    let ghost d2 = disk@;
    put_bytes(disk, 568, &guid);
    let ghost d3 = disk@;
    put_le64(disk, 584, 2);
    put_le32(disk, 592, 128);
    put_le32(disk, 596, 128);
    let ghost h = disk@.subrange(512, 1024);
    assert(h.subrange(0, 8) =~= d1.subrange(512, 520));
    assert(sig@ =~= gpt_signature());
    assert(h.subrange(56, 72) =~= d3.subrange(568, 584));
    assert(guid@ =~= demo_disk_guid());
    assert(le32(h, 8) == le32(d2, 520));
    assert(le32(h, 12) == le32(d2, 524));
    assert(le64(h, 24) == le64(d2, 536));
    assert(le64(h, 32) == le64(d2, 544));
    assert(le64(h, 40) == le64(d2, 552));
    assert(le64(h, 48) == le64(d2, 560));
    assert(le64(h, 72) == le64(disk@, 584));
    assert(le32(h, 80) == le32(disk@, 592));
    assert(le32(h, 84) == le32(disk@, 596));
    reveal(demo_gpt_header);
}

fn write_demo_gpt_array(disk: &mut Vec<u8>)
    requires
        old(disk)@.len() == DEMO_IMAGE_SIZE,
        forall|i: int| 1024 <= i < 17408 ==> #[trigger] old(disk)@[i] == 0,
    ensures
        demo_gpt_array(final(disk)@.subrange(1024, 17408)),
        same_outside(final(disk)@, old(disk)@, 1024, 1152),
{
    let type_guid: [u8; 16] = [0xA2u8, 0xA0, 0xD0, 0xEB, 0xE5, 0xB9, 0x33, 0x44, 0x87, 0xC0, 0x68, 0xB6, 0xB7, 0x26, 0x99, 0xC7];
    put_bytes(disk, 1024, &type_guid);
    let unique: [u8; 16] = [0x42u8; 16];
    let ghost d1 = disk@;
    put_bytes(disk, 1040, &unique);
    let ghost d2 = disk@;
    put_le64(disk, 1056, 2048);
    put_le64(disk, 1064, 10239);
    let ghost d3 = disk@;
    let name = encode_utf16("Data Partition");
    let n = name.len();
    proof {
        reveal_strlit("Data Partition");
        lemma_utf16_bmp("Data Partition"@);
    }
    let mut i: usize = 0;
    while i < n
        invariant
            n == name@.len(),
            n == 14,
            name@ == utf16_of("Data Partition"@),
            disk@.len() == DEMO_IMAGE_SIZE,
            i <= n,
            same_outside(disk@, d3, 1080, 1108),
            forall|k: int| 0 <= k < i ==> le16(disk@, 1080 + 2 * k) == #[trigger] name@[k],
        decreases n - i,
    {
        put_le16(disk, 1080 + 2 * i, name[i]);
        i += 1;
    }
    let ghost a = disk@.subrange(1024, 17408);
    assert(a.subrange(0, 16) =~= d1.subrange(1024, 1040));
    assert(type_guid@ =~= basic_data_type_bytes());
    assert(a.subrange(16, 32) =~= d2.subrange(1040, 1056));
    assert(unique@ =~= Seq::new(16, |i: int| 0x42u8));
    assert(le64(a, 32) == le64(d3, 1056));
    assert(le64(a, 40) == le64(d3, 1064));
    assert forall|k: int| 0 <= k < utf16_of("Data Partition"@).len() implies le16(a, 56 + 2 * k)
        == #[trigger] utf16_of("Data Partition"@)[k] by {
        assert(le16(disk@, 1080 + 2 * k) == name@[k]);
    }
    reveal(demo_gpt_array);
}

/// A text whose characters all lie in the Basic Multilingual Plane has one code unit per
/// character.
pub proof fn lemma_utf16_bmp(s: Seq<char>)
    requires
        forall|i: int| 0 <= i < s.len() ==> (#[trigger] s[i] as u32) < 0x10000,
    ensures
        utf16_of(s).len() == s.len(),
        forall|i: int| 0 <= i < s.len() ==> #[trigger] utf16_of(s)[i] == s[i] as u32 as u16,
    decreases s.len(),
{
    if s.len() > 0 {
        lemma_utf16_bmp(s.drop_last());
        assert(s.last() == s[s.len() - 1]);
        assert forall|i: int| 0 <= i < s.len() implies #[trigger] utf16_of(s)[i] == s[i] as u32 as u16 by {
            if i < s.len() - 1 {
                assert(s.drop_last()[i] == s[i]);
            }
        }
    }
}

fn write_demo_vbr(disk: &mut Vec<u8>)
    requires
        old(disk)@.len() == DEMO_IMAGE_SIZE,
    ensures
        demo_vbr(final(disk)@.subrange(DEMO_VBR_AT as int, DEMO_VBR_AT + 512)),
        same_outside(final(disk)@, old(disk)@, DEMO_VBR_AT as int, DEMO_VBR_AT + 512),
{
    let v = DEMO_VBR_AT;
    put_u8(disk, v + 510, 0x55);
    put_u8(disk, v + 511, 0xAA);
    let oem: [u8; 8] = [0x4Eu8, 0x54, 0x46, 0x53, 0x20, 0x20, 0x20, 0x20];
    let ghost d0 = disk@;
    put_bytes(disk, v + 3, &oem);
    let ghost d1 = disk@;
    put_le16(disk, v + 11, 512);
    put_u8(disk, v + 13, 8);
    put_le64(disk, v + 40, 8192);
    put_le64(disk, v + 48, 4);
    put_le64(disk, v + 56, 2);
    put_u8(disk, v + 64, 0xF6);
    put_u8(disk, v + 68, 0xF6);
    put_le64(disk, v + 72, 0xA1B2_C3D4_E5F6_0718);
    let ghost s = disk@.subrange(v as int, v + 512);
    assert(le16(s, 510) == le16(d0, v + 510));
    assert(s.subrange(3, 11) =~= d1.subrange(v + 3, v + 11));
    assert(oem@ =~= ntfs_oem());
    assert(le16(s, 11) == le16(disk@, v + 11));
    assert(le64(s, 40) == le64(disk@, v + 40));
    assert(le64(s, 48) == le64(disk@, v + 48));
    assert(le64(s, 56) == le64(disk@, v + 56));
    assert(le64(s, 72) == le64(disk@, v + 72));
    reveal(demo_vbr);
}

/// A small JPEG: SOI, JFIF, quantisation table, frame and scan headers, a few data bytes, EOI.
pub open spec fn jpeg_sample() -> Seq<u8> {
    seq![
        0xFFu8, 0xD8, 0xFF, 0xE0, 0x00, 0x10, 0x4A, 0x46, 0x49, 0x46, 0x00, 0x01, 0x01, 0x01, 0x00,
        0x60, 0x00, 0x60, 0x00, 0x00, 0xFF, 0xDB, 0x00, 0x43, 0x00, 0x08, 0x06, 0x06, 0x07, 0x06,
        0x05, 0x08, 0x07, 0x07, 0x07, 0x09, 0x09, 0x08, 0x0A, 0x0C, 0x14, 0x0D, 0x0C, 0x0B, 0x0B,
        0x0C, 0x19, 0x12, 0x13, 0x0F, 0x14, 0x1D, 0x1A, 0x1F, 0x1E, 0x1D, 0x1A, 0x1C, 0x1C, 0x20,
        0x24, 0x2E, 0x27, 0x20, 0x22, 0x2C, 0x23, 0x1C, 0x1C, 0x28, 0x37, 0x29, 0x2C, 0x30, 0x31,
        0x34, 0x34, 0x34, 0x1F, 0x27, 0x39, 0x3D, 0x38, 0x32, 0x3C, 0x2E, 0x33, 0x34, 0x32, 0xFF,
        0xC0, 0x00, 0x0B, 0x08, 0x00, 0x40, 0x00, 0x40, 0x01, 0x01, 0x11, 0x00, 0xFF, 0xDA, 0x00,
        0x08, 0x01, 0x01, 0x00, 0x00, 0x3F, 0x00, 0x12, 0x34, 0x56, 0x78, 0x9A, 0xBC, 0xDE, 0xF0,
        0xFF, 0xD9
    ]
}

/// A small PNG: signature, `IHDR` chunk and `IEND` chunk.
pub open spec fn png_sample() -> Seq<u8> {
    seq![
        0x89u8, 0x50, 0x4E, 0x47, 0x0D, 0x0A, 0x1A, 0x0A, 0x00, 0x00, 0x00, 0x0D, 0x49, 0x48, 0x44,
        0x52, 0x00, 0x00, 0x00, 0x20, 0x00, 0x00, 0x00, 0x20, 0x08, 0x06, 0x00, 0x00, 0x00, 0x73,
        0x7A, 0x7A, 0xF4, 0x00, 0x00, 0x00, 0x00, 0x49, 0x45, 0x4E, 0x44, 0xAE, 0x42, 0x60, 0x82
    ]
}

/// A small ZIP: a local file header for `test.txt` and an end-of-central-directory record.
pub open spec fn zip_sample() -> Seq<u8> {
    seq![
        0x50u8, 0x4B, 0x03, 0x04, 0x14, 0x00, 0x00, 0x00, 0x00, 0x00, 0x00, 0x00, 0x00, 0x00, 0x00,
        0x00, 0x00, 0x00, 0x00, 0x00, 0x00, 0x00, 0x00, 0x00, 0x08, 0x00, 0x00, 0x00, 0x74, 0x65,
        0x73, 0x74, 0x2E, 0x74, 0x78, 0x74, 0x50, 0x4B, 0x05, 0x06, 0x00, 0x00, 0x00, 0x00, 0x00,
        0x00, 0x00, 0x00, 0x00, 0x00, 0x00, 0x00, 0x00, 0x00, 0x00, 0x00, 0x00, 0x00
    ]
}

/// The text of the small PDF.
pub open spec fn pdf_sample() -> Seq<char> {
    "%PDF-1.7\n1 0 obj\n<< /Type /Catalog /Pages 2 0 R >>\nendobj\n2 0 obj\n<< /Type /Pages /Count 1 >>\nendobj\nxref\n0 3\ntrailer\n<< /Size 3 >>\nstartxref\n112\n%%EOF\n"@
}

fn jpeg_sample_bytes() -> (r: Vec<u8>)
    ensures
        r@ == jpeg_sample(),
{
    let r = vec![
        0xFFu8, 0xD8, 0xFF, 0xE0, 0x00, 0x10, 0x4A, 0x46, 0x49, 0x46, 0x00, 0x01, 0x01, 0x01, 0x00,
        0x60, 0x00, 0x60, 0x00, 0x00, 0xFF, 0xDB, 0x00, 0x43, 0x00, 0x08, 0x06, 0x06, 0x07, 0x06,
        0x05, 0x08, 0x07, 0x07, 0x07, 0x09, 0x09, 0x08, 0x0A, 0x0C, 0x14, 0x0D, 0x0C, 0x0B, 0x0B,
        0x0C, 0x19, 0x12, 0x13, 0x0F, 0x14, 0x1D, 0x1A, 0x1F, 0x1E, 0x1D, 0x1A, 0x1C, 0x1C, 0x20,
        0x24, 0x2E, 0x27, 0x20, 0x22, 0x2C, 0x23, 0x1C, 0x1C, 0x28, 0x37, 0x29, 0x2C, 0x30, 0x31,
        0x34, 0x34, 0x34, 0x1F, 0x27, 0x39, 0x3D, 0x38, 0x32, 0x3C, 0x2E, 0x33, 0x34, 0x32, 0xFF,
        0xC0, 0x00, 0x0B, 0x08, 0x00, 0x40, 0x00, 0x40, 0x01, 0x01, 0x11, 0x00, 0xFF, 0xDA, 0x00,
        0x08, 0x01, 0x01, 0x00, 0x00, 0x3F, 0x00, 0x12, 0x34, 0x56, 0x78, 0x9A, 0xBC, 0xDE, 0xF0,
        0xFF, 0xD9
    ];
    assert(r@ =~= jpeg_sample());
    r
}

fn png_sample_bytes() -> (r: Vec<u8>)
    ensures
        r@ == png_sample(),
{
    let r = vec![
        0x89u8, 0x50, 0x4E, 0x47, 0x0D, 0x0A, 0x1A, 0x0A, 0x00, 0x00, 0x00, 0x0D, 0x49, 0x48, 0x44,
        0x52, 0x00, 0x00, 0x00, 0x20, 0x00, 0x00, 0x00, 0x20, 0x08, 0x06, 0x00, 0x00, 0x00, 0x73,
        0x7A, 0x7A, 0xF4, 0x00, 0x00, 0x00, 0x00, 0x49, 0x45, 0x4E, 0x44, 0xAE, 0x42, 0x60, 0x82
    ];
    assert(r@ =~= png_sample());
    r
}

fn zip_sample_bytes() -> (r: Vec<u8>)
    ensures
        r@ == zip_sample(),
{
    let r = vec![
        0x50u8, 0x4B, 0x03, 0x04, 0x14, 0x00, 0x00, 0x00, 0x00, 0x00, 0x00, 0x00, 0x00, 0x00, 0x00,
        0x00, 0x00, 0x00, 0x00, 0x00, 0x00, 0x00, 0x00, 0x00, 0x08, 0x00, 0x00, 0x00, 0x74, 0x65,
        0x73, 0x74, 0x2E, 0x74, 0x78, 0x74, 0x50, 0x4B, 0x05, 0x06, 0x00, 0x00, 0x00, 0x00, 0x00,
        0x00, 0x00, 0x00, 0x00, 0x00, 0x00, 0x00, 0x00, 0x00, 0x00, 0x00, 0x00, 0x00
    ];
    assert(r@ =~= zip_sample());
    r
}

fn write_demo_gpt_crcs(disk: &mut Vec<u8>)
    requires
        old(disk)@.len() == DEMO_IMAGE_SIZE,
        le32(old(disk)@, 524) == 92,
    ensures
        le32(final(disk)@, 600) == crc32_of(old(disk)@.subrange(1024, 17408)),
        crc32_of(gpt_crc_input(final(disk)@.subrange(512, 1024))) == le32(final(disk)@, 528),
        final(disk)@.len() == old(disk)@.len(),
        forall|i: int|
            0 <= i < old(disk)@.len() && !(528 <= i < 532) && !(600 <= i < 604) ==> #[trigger] final(disk)@[i]
                == old(disk)@[i],
{
    let array_crc = crc32(&disk.as_slice()[1024..17408]);
    put_le32(disk, 600, array_crc);
    let ghost d1 = disk@;
    let mut hdr = slice_to_vec(&disk.as_slice()[512..604]);
    hdr.set(16, 0);
    hdr.set(17, 0);
    hdr.set(18, 0);
    hdr.set(19, 0);
    let hdr_crc = crc32(hdr.as_slice());
    put_le32(disk, 528, hdr_crc);
    proof {
        let h = disk@.subrange(512, 1024);
        assert(le32(h, 12) == le32(d1, 524));
        assert(gpt_crc_input(h) =~= hdr@);
        assert(le32(h, 16) == le32(disk@, 528));
    }
}

fn write_demo_partitions(disk: &mut Vec<u8>)
    requires
        old(disk)@ == Seq::new(DEMO_IMAGE_SIZE as nat, |i: int| 0u8),
    ensures
        final(disk)@.len() == DEMO_IMAGE_SIZE,
        demo_mbr(final(disk)@.subrange(0, 512)),
        demo_gpt_header(final(disk)@.subrange(512, 1024)),
        is_valid_gpt_header(final(disk)@.subrange(512, 1024)),
        demo_gpt_array(final(disk)@.subrange(1024, 17408)),
        le32(final(disk)@, 600) == crc32_of(final(disk)@.subrange(1024, 17408)),
        same_outside(final(disk)@, old(disk)@, 0, 17408),
{
    let ghost s0 = disk@;
    write_demo_mbr(disk);
    let ghost s1 = disk@;
    write_demo_gpt_header(disk);
    let ghost s2 = disk@;
    write_demo_gpt_array(disk);
    let ghost s3 = disk@;
    proof {
        reveal(demo_gpt_header);
        assert(le32(s2.subrange(512, 1024), 12) == le32(s2, 524));
        assert(le32(s3, 524) == le32(s2, 524));
    }
    write_demo_gpt_crcs(disk);
    proof {
        let d = disk@;
        assert(d.subrange(0, 512) =~= s1.subrange(0, 512));
        assert(d.subrange(1024, 17408) =~= s3.subrange(1024, 17408));
        let h = d.subrange(512, 1024);
        let h2 = s2.subrange(512, 1024);
        assert(h.subrange(0, 8) =~= h2.subrange(0, 8));
        assert(h.subrange(56, 72) =~= h2.subrange(56, 72));
        assert(le32(h, 8) == le32(h2, 8));
        assert(le32(h, 12) == le32(h2, 12));
        assert(le64(h, 24) == le64(h2, 24));
        assert(le64(h, 32) == le64(h2, 32));
        assert(le64(h, 40) == le64(h2, 40));
        assert(le64(h, 48) == le64(h2, 48));
        assert(le64(h, 72) == le64(h2, 72));
        assert(le32(h, 80) == le32(h2, 80));
        assert(le32(h, 84) == le32(h2, 84));
        assert(le32(h, 16) == le32(d, 528));
        assert(demo_gpt_header(h));
        assert(is_valid_gpt_header(h));
    }
}

fn write_demo_volume(disk: &mut Vec<u8>)
    requires
        old(disk)@.len() == DEMO_IMAGE_SIZE,
    ensures
        final(disk)@.len() == DEMO_IMAGE_SIZE,
        demo_vbr(final(disk)@.subrange(DEMO_VBR_AT as int, DEMO_VBR_AT + 512)),
        sample_record(
            final(disk)@.subrange(DEMO_MFT_AT as int, DEMO_MFT_AT + 1024),
            0,
            utf16_of("$MFT"@),
            5,
            false,
            byte_text("Mock $MFT raw binary payload stream"@),
        ),
        sample_record(
            final(disk)@.subrange(DEMO_MFT_AT + 5 * 1024, DEMO_MFT_AT + 6 * 1024),
            5,
            utf16_of("."@),
            5,
            true,
            Seq::empty(),
        ),
        sample_record(
            final(disk)@.subrange(DEMO_MFT_AT + 32 * 1024, DEMO_MFT_AT + 33 * 1024),
            32,
            utf16_of("Critical_Report.txt"@),
            5,
            false,
            byte_text(
                "TOP SECRET DATA RECOVERY PAYLOAD: Hard disk blocks successfully recovered with 100% integrity."@,
            ),
        ),
        same_outside(final(disk)@, old(disk)@, DEMO_VBR_AT as int, DEMO_MFT_AT + 33 * 1024),
{
    write_demo_vbr(disk);
    let ghost s1 = disk@;
    let mut rec: Vec<u8> = vec![0u8; 1024];
    proof {
        reveal_strlit("$MFT");
        reveal_strlit(".");
        reveal_strlit("Critical_Report.txt");
        reveal_strlit("Mock $MFT raw binary payload stream");
        reveal_strlit(
            "TOP SECRET DATA RECOVERY PAYLOAD: Hard disk blocks successfully recovered with 100% integrity.",
        );
        lemma_utf16_bmp("$MFT"@);
        lemma_utf16_bmp("."@);
        lemma_utf16_bmp("Critical_Report.txt"@);
    }
    let mft_content = text_bytes("Mock $MFT raw binary payload stream");
    write_sample_mft_record(&mut rec, 0, "$MFT", 5, false, mft_content.as_slice());
    put_bytes(&mut *disk, DEMO_MFT_AT, rec.as_slice());
    let ghost s2 = disk@;
    let no_content: [u8; 0] = [];
    proof {
        assert(no_content@ =~= Seq::<u8>::empty());
    }
    write_sample_mft_record(&mut rec, 5, ".", 5, true, &no_content);
    put_bytes(&mut *disk, DEMO_MFT_AT + 5 * 1024, rec.as_slice());
    let ghost s3 = disk@;
    let report = text_bytes(
        "TOP SECRET DATA RECOVERY PAYLOAD: Hard disk blocks successfully recovered with 100% integrity.",
    );
    write_sample_mft_record(&mut rec, 32, "Critical_Report.txt", 5, false, report.as_slice());
    put_bytes(&mut *disk, DEMO_MFT_AT + 32 * 1024, rec.as_slice());
    proof {
        let d = disk@;
        assert(d.subrange(DEMO_VBR_AT as int, DEMO_VBR_AT + 512) =~= s1.subrange(
            DEMO_VBR_AT as int,
            DEMO_VBR_AT + 512,
        ));
        assert(d.subrange(DEMO_MFT_AT as int, DEMO_MFT_AT + 1024) =~= s2.subrange(
            DEMO_MFT_AT as int,
            DEMO_MFT_AT + 1024,
        ));
        assert(d.subrange(DEMO_MFT_AT + 5 * 1024, DEMO_MFT_AT + 6 * 1024) =~= s3.subrange(
            DEMO_MFT_AT + 5 * 1024,
            DEMO_MFT_AT + 6 * 1024,
        ));
    }
}

fn write_demo_carvables(disk: &mut Vec<u8>)
    requires
        old(disk)@.len() == DEMO_IMAGE_SIZE,
    ensures
        final(disk)@.len() == DEMO_IMAGE_SIZE,
        final(disk)@.subrange(DEMO_CARVE_AT + 512, DEMO_CARVE_AT + 512 + jpeg_sample().len())
            == jpeg_sample(),
        final(disk)@.subrange(DEMO_CARVE_AT + 65536, DEMO_CARVE_AT + 65536 + png_sample().len())
            == png_sample(),
        final(disk)@.subrange(DEMO_CARVE_AT + 131072, DEMO_CARVE_AT + 131072 + pdf_sample().len())
            == byte_text(pdf_sample()),
        final(disk)@.subrange(DEMO_CARVE_AT + 196608, DEMO_CARVE_AT + 196608 + zip_sample().len())
            == zip_sample(),
        same_outside(final(disk)@, old(disk)@, DEMO_CARVE_AT as int, DEMO_CARVE_AT + 196608 + 58),
{
    let jpeg = jpeg_sample_bytes();
    put_bytes(disk, DEMO_CARVE_AT + 512, jpeg.as_slice());
    let ghost s1 = disk@;
    let png = png_sample_bytes();
    put_bytes(disk, DEMO_CARVE_AT + 65536, png.as_slice());
    let ghost s2 = disk@;
    let pdf = text_bytes(
        "%PDF-1.7\n1 0 obj\n<< /Type /Catalog /Pages 2 0 R >>\nendobj\n2 0 obj\n<< /Type /Pages /Count 1 >>\nendobj\nxref\n0 3\ntrailer\n<< /Size 3 >>\nstartxref\n112\n%%EOF\n",
    );
    proof {
        reveal_strlit(
            "%PDF-1.7\n1 0 obj\n<< /Type /Catalog /Pages 2 0 R >>\nendobj\n2 0 obj\n<< /Type /Pages /Count 1 >>\nendobj\nxref\n0 3\ntrailer\n<< /Size 3 >>\nstartxref\n112\n%%EOF\n",
        );
    }
    put_bytes(disk, DEMO_CARVE_AT + 131072, pdf.as_slice());
    let ghost s3 = disk@;
    let zip = zip_sample_bytes();
    put_bytes(disk, DEMO_CARVE_AT + 196608, zip.as_slice());
    proof {
        let d = disk@;
        assert(d.subrange(DEMO_CARVE_AT + 512, DEMO_CARVE_AT + 512 + jpeg_sample().len()) =~= s1.subrange(
            DEMO_CARVE_AT + 512,
            DEMO_CARVE_AT + 512 + jpeg_sample().len(),
        ));
        assert(d.subrange(DEMO_CARVE_AT + 65536, DEMO_CARVE_AT + 65536 + png_sample().len()) =~= s2.subrange(
            DEMO_CARVE_AT + 65536,
            DEMO_CARVE_AT + 65536 + png_sample().len(),
        ));
        assert(d.subrange(DEMO_CARVE_AT + 131072, DEMO_CARVE_AT + 131072 + pdf_sample().len()) =~= s3.subrange(
            DEMO_CARVE_AT + 131072,
            DEMO_CARVE_AT + 131072 + pdf_sample().len(),
        ));
    }
}

/// Generator of the synthetic disk image.
pub struct SyntheticDiskGenerator;

impl SyntheticDiskGenerator {
    /// The bytes of the synthetic disk image: 12 MiB holding a protective MBR, a GPT whose
    /// header and partition array carry correct CRCs, an NTFS boot sector at LBA 2048, MFT
    /// records 0 (`$MFT`), 5 (the root directory) and 32 (`Critical_Report.txt`) with resident
    /// contents, and a JPEG, a PNG, a PDF and a ZIP at 8 MiB and after.
    pub fn build_test_image() -> (r: Vec<u8>)
        ensures
            r@.len() == DEMO_IMAGE_SIZE,
            demo_mbr(r@.subrange(0, 512)),
            demo_gpt_header(r@.subrange(512, 1024)),
            is_valid_gpt_header(r@.subrange(512, 1024)),
            demo_gpt_array(r@.subrange(1024, 17408)),
            le32(r@, 600) == crc32_of(r@.subrange(1024, 17408)),
            demo_vbr(r@.subrange(DEMO_VBR_AT as int, DEMO_VBR_AT + 512)),
            sample_record(
                r@.subrange(DEMO_MFT_AT as int, DEMO_MFT_AT + 1024),
                0,
                utf16_of("$MFT"@),
                5,
                false,
                byte_text("Mock $MFT raw binary payload stream"@),
            ),
            sample_record(
                r@.subrange(DEMO_MFT_AT + 5 * 1024, DEMO_MFT_AT + 6 * 1024),
                5,
                utf16_of("."@),
                5,
                true,
                Seq::empty(),
            ),
            sample_record(
                r@.subrange(DEMO_MFT_AT + 32 * 1024, DEMO_MFT_AT + 33 * 1024),
                32,
                utf16_of("Critical_Report.txt"@),
                5,
                false,
                byte_text(
                    "TOP SECRET DATA RECOVERY PAYLOAD: Hard disk blocks successfully recovered with 100% integrity."@,
                ),
            ),
            r@.subrange(DEMO_CARVE_AT + 512, DEMO_CARVE_AT + 512 + jpeg_sample().len()) == jpeg_sample(),
            r@.subrange(DEMO_CARVE_AT + 65536, DEMO_CARVE_AT + 65536 + png_sample().len()) == png_sample(),
            r@.subrange(DEMO_CARVE_AT + 131072, DEMO_CARVE_AT + 131072 + pdf_sample().len())
                == byte_text(pdf_sample()),
            r@.subrange(DEMO_CARVE_AT + 196608, DEMO_CARVE_AT + 196608 + zip_sample().len()) == zip_sample(),
    {
        let mut disk: Vec<u8> = vec![0u8; DEMO_IMAGE_SIZE];
        proof {
            assert(disk@ =~= Seq::new(DEMO_IMAGE_SIZE as nat, |i: int| 0u8));
        }
        write_demo_partitions(&mut disk);
        let ghost s1 = disk@;
        write_demo_volume(&mut disk);
        let ghost s2 = disk@;
        write_demo_carvables(&mut disk);
        proof {
            assert(disk@.subrange(0, 512) =~= s1.subrange(0, 512));
            assert(disk@.subrange(512, 1024) =~= s1.subrange(512, 1024));
            assert(disk@.subrange(1024, 17408) =~= s1.subrange(1024, 17408));
            assert(le32(disk@, 600) == le32(s1, 600));
            assert(disk@.subrange(DEMO_VBR_AT as int, DEMO_VBR_AT + 512) =~= s2.subrange(
                DEMO_VBR_AT as int,
                DEMO_VBR_AT + 512,
            ));
            assert(disk@.subrange(DEMO_MFT_AT as int, DEMO_MFT_AT + 1024) =~= s2.subrange(
                DEMO_MFT_AT as int,
                DEMO_MFT_AT + 1024,
            ));
            assert(disk@.subrange(DEMO_MFT_AT + 5 * 1024, DEMO_MFT_AT + 6 * 1024) =~= s2.subrange(
                DEMO_MFT_AT + 5 * 1024,
                DEMO_MFT_AT + 6 * 1024,
            ));
            assert(disk@.subrange(DEMO_MFT_AT + 32 * 1024, DEMO_MFT_AT + 33 * 1024) =~= s2.subrange(
                DEMO_MFT_AT + 32 * 1024,
                DEMO_MFT_AT + 33 * 1024,
            ));
        }
        disk
    }
}

} // verus!
