//! NTFS attributes: types, cluster runlists and attribute records.

use vstd::prelude::*;
use crate::binary_reader::{read_error, utf16_units, BinaryReader};
use crate::endian::{get_le16, get_le32, get_le64, le16, le32, le64, le_value, lemma_byte_order};
use crate::error::{out_of_bounds, RecoveryError, Result};
use crate::gpt::slice_to_vec;
use crate::text::{dec_text, push_dec, utf16_lossy};
use crate::types::{filetime_to_datetime, spec_filetime_to_datetime, Cluster, UtcTime};

verus! {

/// `256` to the power `n`.
pub open spec fn pow256(n: nat) -> nat
    decreases n,
{
    if n == 0 {
        1
    } else {
        256 * pow256((n - 1) as nat)
    }
}

/// The unsigned little-endian value of a byte sequence.
pub open spec fn le_nat(s: Seq<u8>) -> nat
    decreases s.len(),
{
    if s.len() == 0 {
        0
    } else {
        le_nat(s.drop_last()) + (s.last() as nat) * pow256((s.len() - 1) as nat)
    }
}

/// The two's complement little-endian value of a byte sequence.
pub open spec fn signed_le(s: Seq<u8>) -> int {
    if s.len() > 0 && s.last() >= 0x80 {
        le_nat(s) - pow256(s.len())
    } else {
        le_nat(s) as int
    }
}

proof fn lemma_pow256_pos(n: nat)
    ensures
        pow256(n) >= 1,
    decreases n,
{
    if n > 0 {
        lemma_pow256_pos((n - 1) as nat);
    }
}

proof fn lemma_le_nat_bound(s: Seq<u8>)
    ensures
        le_nat(s) < pow256(s.len()),
        s.len() > 0 && s.last() >= 0x80 ==> le_nat(s) >= 128 * pow256((s.len() - 1) as nat),
    decreases s.len(),
{
    if s.len() > 0 {
        let p = pow256((s.len() - 1) as nat);
        lemma_le_nat_bound(s.drop_last());
        lemma_pow256_pos((s.len() - 1) as nat);
        assert(s.last() * p <= 255 * p) by (nonlinear_arith)
            requires
                s.last() <= 255,
                p >= 1,
        ;
        assert(s.last() >= 0x80 ==> s.last() * p >= 128 * p) by (nonlinear_arith)
            requires
                p >= 1,
        ;
    }
}

proof fn lemma_pow256_8()
    ensures
        pow256(8) == 0x1_0000_0000_0000_0000,
{
    reveal_with_fuel(pow256, 9);
}

/// The unsigned little-endian value of `d[start..start + n]`.
fn read_le_unsigned(d: &[u8], start: usize, n: usize) -> (r: u64)
    requires
        n <= 8,
        start + n <= d@.len(),
    ensures
        r == le_nat(d@.subrange(start as int, start + n)),
{
    let dl = d.len();
    let mut acc: u128 = 0;
    let mut mult: u128 = 1;
    let mut i: usize = 0;
    proof {
        assert(d@.subrange(start as int, start as int) =~= Seq::<u8>::empty());
        lemma_pow256_8();
    }
    while i < n
        invariant
            i <= n <= 8,
            start + n <= d@.len(),
            dl == d@.len(),
            acc == le_nat(d@.subrange(start as int, start + i)),
            mult == pow256(i as nat),
            pow256(8) == 0x1_0000_0000_0000_0000,
        decreases n - i,
    {
        let ghost s = d@.subrange(start as int, start + i + 1);
        proof {
            assert(s.drop_last() =~= d@.subrange(start as int, start + i));
            assert(s.last() == d@[start + i]);
            lemma_le_nat_bound(s.drop_last());
            lemma_pow256_mono(i as nat, 7);
            assert(d@[start + i] * mult <= 255 * 0x100_0000_0000_0000) by (nonlinear_arith)
                requires
                    d@[start + i] <= 255,
                    mult <= 0x100_0000_0000_0000,
            ;
        }
        acc = acc + (d[start + i] as u128) * mult;
        mult = mult * 256;
        i += 1;
    }
    proof {
        lemma_le_nat_bound(d@.subrange(start as int, start + n));
        lemma_pow256_mono(n as nat, 8);
    }
    acc as u64
}

proof fn lemma_pow256_mono(a: nat, b: nat)
    requires
        a <= b,
    ensures
        pow256(a) <= pow256(b),
    decreases b,
{
    if a < b {
        lemma_pow256_mono(a, (b - 1) as nat);
        lemma_pow256_pos((b - 1) as nat);
    }
}

/// The two's complement little-endian value of `d[start..start + n]`.
fn read_le_signed(d: &[u8], start: usize, n: usize) -> (r: i64)
    requires
        1 <= n <= 8,
        start + n <= d@.len(),
    ensures
        r == signed_le(d@.subrange(start as int, start + n)),
{
    let _dl = d.len();
    let u = read_le_unsigned(d, start, n);
    let ghost s = d@.subrange(start as int, start + n);
    proof {
        lemma_le_nat_bound(s);
        lemma_pow256_mono(n as nat, 8);
        lemma_pow256_mono((n - 1) as nat, 7);
        lemma_pow256_8();
        reveal_with_fuel(pow256, 8);
        assert(s.last() == d@[start + n - 1]);
        assert(pow256(n as nat) == 256 * pow256((n - 1) as nat));
    }
    let mut p: u128 = 1;
    let mut k: usize = 0;
    while k < n
        invariant
            k <= n <= 8,
            p == pow256(k as nat),
            pow256(8) == 0x1_0000_0000_0000_0000,
        decreases n - k,
    {
        proof {
            lemma_pow256_mono(k as nat, 7);
        }
        p = p * 256;
        k += 1;
    }
    if d[start + n - 1] >= 0x80 {
        ((u as i128) - (p as i128)) as i64
    } else {
        proof {
            if n == 8 {
                assert(le_nat(s) < 128 * pow256(7)) by {
                    let q = pow256(7);
                    assert(le_nat(s) == le_nat(s.drop_last()) + s.last() * q);
                    lemma_le_nat_bound(s.drop_last());
                    assert(s.drop_last().len() == 7);
                    assert(s.last() * q <= 127 * q) by (nonlinear_arith)
                        requires
                            s.last() <= 127,
                    ;
                }
            }
        }
        u as i64
    }
}

/// A contiguous cluster allocation run on disk.
#[derive(Debug, Clone, PartialEq, Eq, Structural)]
pub struct DataRun {
    pub length_clusters: u64,
    /// Absolute starting cluster on disk (LCN); `None` for a sparse run.
    pub lcn: Option<Cluster>,
}

/// Number of length bytes announced by a run header.
pub open spec fn run_len_bytes(h: u8) -> int {
    (h % 16) as int
}

/// Number of offset bytes announced by a run header.
pub open spec fn run_off_bytes(h: u8) -> int {
    (h / 16) as int
}

/// The runs encoded in `d`, with `prev` the cluster reached by the runs before, or `None`
/// when the runlist ends in the middle of a run.
#[verifier::opaque]
pub open spec fn runs_from(d: Seq<u8>, prev: int) -> Option<Seq<DataRun>>
    decreases d.len(),
{
    if d.len() == 0 || d[0] == 0 {
        Some(Seq::empty())
    } else {
        let lb = run_len_bytes(d[0]);
        let ob = run_off_bytes(d[0]);
        let rest = d.drop_first();
        if rest.len() < lb + ob {
            None
        } else {
            let length = le_nat(rest.take(lb)) as u64;
            let next = if ob == 0 {
                prev
            } else {
                prev + signed_le(rest.subrange(lb, lb + ob))
            };
            let lcn = if ob == 0 {
                None
            } else {
                Some(next as u64)
            };
            match runs_from(rest.skip(lb + ob), next) {
                Some(t) => Some(seq![DataRun { length_clusters: length, lcn }] + t),
                None => None,
            }
        }
    }
}

/// The runlists that decode without a shift or cluster-number overflow: at most eight
/// length and offset bytes per run, and running cluster numbers within `i64`.
#[verifier::opaque]
pub open spec fn runs_decodable(d: Seq<u8>, prev: int) -> bool
    decreases d.len(),
{
    if d.len() == 0 || d[0] == 0 {
        true
    } else {
        let lb = run_len_bytes(d[0]);
        let ob = run_off_bytes(d[0]);
        let rest = d.drop_first();
        if rest.len() < lb + ob {
            true
        } else {
            let next = if ob == 0 {
                prev
            } else {
                prev + signed_le(rest.subrange(lb, lb + ob))
            };
            &&& lb <= 8
            &&& ob <= 8
            &&& i64::MIN <= next <= i64::MAX
            &&& runs_decodable(rest.skip(lb + ob), next)
        }
    }
}

/// The runs before, followed by the decoding of the rest.
pub open spec fn runs_then(done: Seq<DataRun>, rest: Option<Seq<DataRun>>) -> Option<Seq<DataRun>> {
    match rest {
        Some(t) => Some(done + t),
        None => None,
    }
}

/// The cluster reached after the run whose header is `d[0]`.
pub open spec fn run_next(d: Seq<u8>, prev: int) -> int {
    let lb = run_len_bytes(d[0]);
    let ob = run_off_bytes(d[0]);
    if ob == 0 {
        prev
    } else {
        prev + signed_le(d.drop_first().subrange(lb, lb + ob))
    }
}

proof fn lemma_runs_stop(d: Seq<u8>, prev: int)
    requires
        d.len() == 0 || d[0] == 0,
    ensures
        runs_from(d, prev) == Some(Seq::<DataRun>::empty()),
{
    reveal(runs_from);
}

proof fn lemma_runs_short(d: Seq<u8>, prev: int)
    requires
        d.len() > 0,
        d[0] != 0,
        d.len() - 1 < run_len_bytes(d[0]) + run_off_bytes(d[0]),
    ensures
        runs_from(d, prev) is None,
{
    reveal(runs_from);
}

proof fn lemma_runs_step(d: Seq<u8>, prev: int)
    requires
        d.len() > 0,
        d[0] != 0,
        d.len() - 1 >= run_len_bytes(d[0]) + run_off_bytes(d[0]),
    ensures
        ({
            let lb = run_len_bytes(d[0]);
            let ob = run_off_bytes(d[0]);
            let rest = d.drop_first();
            let next = run_next(d, prev);
            let run = DataRun {
                length_clusters: le_nat(rest.take(lb)) as u64,
                lcn: if ob == 0 { None } else { Some(next as u64) },
            };
            &&& runs_from(d, prev) == runs_then(seq![run], runs_from(rest.skip(lb + ob), next))
            &&& runs_decodable(d, prev) == (lb <= 8 && ob <= 8 && i64::MIN <= next <= i64::MAX
                && runs_decodable(rest.skip(lb + ob), next))
        }),
{
    reveal(runs_from);
    reveal(runs_decodable);
}

proof fn lemma_le_value_last(d: Seq<u8>, i: int, n: nat)
    requires
        n > 0,
    ensures
        le_value(d, i, n) == le_value(d, i, (n - 1) as nat) + d[i + n - 1] * pow256((n - 1) as nat),
    decreases n,
{
    if n > 1 {
        lemma_le_value_last(d, i + 1, (n - 1) as nat);
        let a = le_value(d, i + 1, (n - 2) as nat);
        let b = d[i + n - 1] as int;
        let p = pow256((n - 2) as nat) as int;
        assert(le_value(d, i + 1, (n - 1) as nat) == a + b * p);
        assert(le_value(d, i, n) == d[i] + 256 * le_value(d, i + 1, (n - 1) as nat));
        assert(le_value(d, i, (n - 1) as nat) == d[i] + 256 * a);
        assert(pow256((n - 1) as nat) == 256 * p);
        assert(256 * (a + b * p) == 256 * a + b * (256 * p)) by (nonlinear_arith);
        assert(b * pow256((n - 1) as nat) == b * (256 * p));
        assert(le_value(d, i, n) == le_value(d, i, (n - 1) as nat) + b * pow256((n - 1) as nat));
    } else {
        assert(le_value(d, i, 0) == 0);
        assert(le_value(d, i + 1, 0) == 0);
        assert(pow256(0) == 1);
        assert(d[i] * pow256(0) == d[i]);
        assert(le_value(d, i, 1) == d[i]);
    }
}

proof fn lemma_le_nat_value(d: Seq<u8>, i: int, n: nat)
    requires
        0 <= i,
        i + n <= d.len(),
    ensures
        le_nat(d.subrange(i, i + n)) == le_value(d, i, n),
    decreases n,
{
    if n > 0 {
        let s = d.subrange(i, i + n);
        assert(s.drop_last() =~= d.subrange(i, i + n - 1));
        lemma_le_nat_value(d, i, (n - 1) as nat);
        lemma_le_value_last(d, i, n);
    }
}

/// How a runlist is read, one run at a time. A header byte of 0, or no byte at all, ends the
/// list. Otherwise the low four bits of the header byte `h` give the number `l` of length
/// bytes and its high four bits the number `o` of offset bytes that follow it; if fewer bytes
/// follow, the list is malformed. The run's length is the unsigned little-endian value of its
/// length bytes. With no offset bytes the run is sparse; otherwise it starts at `prev`, the
/// cluster the runs before reached, plus the two's complement little-endian value of its
/// offset bytes, and that cluster is where the offset of the next run counts from. The rest
/// of the list follows the run's bytes.
pub proof fn lemma_runlist_step(d: Seq<u8>, prev: int)
    ensures
        d.len() == 0 || d[0] == 0 ==> runs_from(d, prev) == Some(Seq::<DataRun>::empty()),
        d.len() > 0 && d[0] != 0 && d.len() < 1 + (d[0] & 0x0F) + (d[0] >> 4) ==> runs_from(d, prev)
            is None,
        d.len() > 0 && d[0] != 0 && d.len() >= 1 + (d[0] & 0x0F) + (d[0] >> 4) ==> ({
            let l = (d[0] & 0x0F) as int;
            let o = (d[0] >> 4) as int;
            let off = le_value(d, 1 + l, o as nat) - (if o > 0 && d[l + o] >= 0x80 {
                pow256(o as nat) as int
            } else {
                0
            });
            let run = DataRun {
                length_clusters: le_value(d, 1, l as nat) as u64,
                lcn: if o == 0 { None } else { Some((prev + off) as u64) },
            };
            runs_from(d, prev) == runs_then(seq![run], runs_from(d.skip(1 + l + o), prev + off))
        }),
{
    if d.len() == 0 || d[0] == 0 {
        lemma_runs_stop(d, prev);
    } else {
        let h = d[0];
        assert(h & 0x0F == h % 16) by (bit_vector);
        assert(h >> 4 == h / 16) by (bit_vector);
        let l = run_len_bytes(h);
        let o = run_off_bytes(h);
        if d.len() - 1 < l + o {
            lemma_runs_short(d, prev);
        } else {
            lemma_runs_step(d, prev);
            let rest = d.drop_first();
            assert(rest.take(l) =~= d.subrange(1, 1 + l));
            lemma_le_nat_value(d, 1, l as nat);
            assert(rest.subrange(l, l + o) =~= d.subrange(1 + l, 1 + l + o));
            lemma_le_nat_value(d, 1 + l, o as nat);
            assert(rest.skip(l + o) =~= d.skip(1 + l + o));
            if o > 0 {
                assert(rest.subrange(l, l + o).last() == d[l + o]);
            } else {
                assert(le_value(d, 1 + l, 0) == 0);
            }
        }
    }
}

/// Whether a runlist decodes without overflow; see `runs_decodable`.
pub fn runlist_decodable(data: &[u8]) -> (r: bool)
    ensures
        r == runs_decodable(data@, 0),
{
    let n = data.len();
    let mut prev: i64 = 0;
    let mut pos: usize = 0;
    proof {
        assert(data@.skip(0) =~= data@);
        lemma_decodable_stop(data@.skip(n as int), 0);
    }
    while pos < n
        invariant
            n == data@.len(),
            pos <= n,
            runs_decodable(data@, 0) == runs_decodable(data@.skip(pos as int), prev as int),
            runs_decodable(data@.skip(n as int), prev as int),
        decreases n - pos,
    {
        let ghost d = data@.skip(pos as int);
        let header = data[pos];
        assert(header == d[0]);
        if header == 0x00 {
            proof {
                lemma_decodable_stop(d, prev as int);
            }
            return true;
        }
        let len_bytes = (header & 0x0F) as usize;
        let offset_bytes = ((header >> 4) & 0x0F) as usize;
        assert(header & 0x0F == header % 16) by (bit_vector);
        assert((header >> 4) & 0x0F == header / 16) by (bit_vector);
        let body = pos + 1;
        proof {
            assert(d.drop_first() =~= data@.skip(body as int));
        }
        if n - body < len_bytes + offset_bytes {
            proof {
                lemma_decodable_short(d, prev as int);
            }
            return true;
        }
        proof {
            lemma_runs_step(d, prev as int);
        }
        if len_bytes > 8 || offset_bytes > 8 {
            return false;
        }
        if offset_bytes > 0 {
            let delta = read_le_signed(data, body + len_bytes, offset_bytes);
            proof {
                assert(d.drop_first().subrange(len_bytes as int, len_bytes + offset_bytes) =~= data@.subrange(
                    body + len_bytes,
                    body + len_bytes + offset_bytes,
                ));
            }
            let sum = prev as i128 + delta as i128;
            if sum < i64::MIN as i128 || sum > i64::MAX as i128 {
                return false;
            }
            prev = sum as i64;
        }
        let next_pos = body + len_bytes + offset_bytes;
        proof {
            assert(d.drop_first().skip(len_bytes + offset_bytes) =~= data@.skip(next_pos as int));
            lemma_decodable_stop(data@.skip(n as int), prev as int);
        }
        pos = next_pos;
    }
    true
}

proof fn lemma_decodable_stop(d: Seq<u8>, prev: int)
    requires
        d.len() == 0 || d[0] == 0,
    ensures
        runs_decodable(d, prev),
{
    reveal(runs_decodable);
}

proof fn lemma_decodable_short(d: Seq<u8>, prev: int)
    requires
        d.len() > 0,
        d[0] != 0,
        d.len() - 1 < run_len_bytes(d[0]) + run_off_bytes(d[0]),
    ensures
        runs_decodable(d, prev),
{
    reveal(runs_decodable);
}

impl DataRun {
    /// Parses an NTFS mapping-pairs runlist.
    pub fn parse_runlist(data: &[u8]) -> (r: Result<Vec<DataRun>>)
        requires
            runs_decodable(data@, 0),
        ensures
            runs_from(data@, 0) matches Some(runs) ==> r matches Ok(v) && v@ == runs,
            runs_from(data@, 0) is None ==> (r matches Err(RecoveryError::NtfsError(m)) && m@
                == "Malformed data run: unexpected end of runlist buffer"@),
    {
        let mut runs: Vec<DataRun> = Vec::new();
        let mut prev_lcn: i64 = 0;
        let n = data.len();
        let mut pos: usize = 0;
        proof {
            assert(data@.skip(0) =~= data@);
            match runs_from(data@, 0) {
                Some(t) => {
                    assert(runs@ + t =~= t);
                },
                None => {},
            }
            lemma_runs_stop(data@.skip(n as int), 0);
        }
        while pos < n
            invariant
                n == data@.len(),
                pos <= n,
                runs_decodable(data@.skip(pos as int), prev_lcn as int),
                runs_from(data@, 0) == runs_then(runs@, runs_from(data@.skip(pos as int), prev_lcn as int)),
                runs_from(data@.skip(n as int), prev_lcn as int) == Some(Seq::<DataRun>::empty()),
            ensures
                runs_from(data@, 0) == Some(runs@),
            decreases n - pos,
        {
            let ghost d = data@.skip(pos as int);
            let header = data[pos];
            assert(header == d[0]);
            if header == 0x00 {
                proof {
                    lemma_runs_stop(d, prev_lcn as int);
                }
                assert(runs@ + Seq::<DataRun>::empty() =~= runs@);
                break;
            }
            let len_bytes = (header & 0x0F) as usize;
            let offset_bytes = ((header >> 4) & 0x0F) as usize;
            assert(header & 0x0F == header % 16) by (bit_vector);
            assert((header >> 4) & 0x0F == header / 16) by (bit_vector);
            assert(len_bytes == run_len_bytes(header) && offset_bytes == run_off_bytes(header));
            let ghost rest = d.drop_first();
            let body = pos + 1;
            proof {
                assert(rest =~= data@.skip(body as int));
            }
            if n - body < len_bytes + offset_bytes {
                proof {
                    lemma_runs_short(d, prev_lcn as int);
                }
                return Err(RecoveryError::NtfsError(String::from_str("Malformed data run: unexpected end of runlist buffer")));
            }
            proof {
                lemma_runs_step(d, prev_lcn as int);
            }
            let length_clusters = read_le_unsigned(data, body, len_bytes);
            proof {
                assert(rest.take(len_bytes as int) =~= data@.subrange(body as int, body + len_bytes));
            }
            let lcn = if offset_bytes == 0 {
                None
            } else {
                let delta = read_le_signed(data, body + len_bytes, offset_bytes);
                proof {
                    assert(rest.subrange(len_bytes as int, len_bytes + offset_bytes) =~= data@.subrange(
                        body + len_bytes,
                        body + len_bytes + offset_bytes,
                    ));
                }
                prev_lcn = prev_lcn + delta;
                Some(prev_lcn as u64)
            };
            let run = DataRun { length_clusters, lcn };
            let ghost before = runs@;
            runs.push(run);
            let next_pos = body + len_bytes + offset_bytes;
            proof {
                assert(rest.skip(len_bytes + offset_bytes) =~= data@.skip(next_pos as int));
                assert(runs@ =~= before + seq![run]);
                let tail = runs_from(data@.skip(next_pos as int), prev_lcn as int);
                match tail {
                    Some(t) => {
                        assert(before + (seq![run] + t) =~= runs@ + t);
                    },
                    None => {},
                }
            }
            pos = next_pos;
            proof {
                lemma_runs_stop(data@.skip(n as int), prev_lcn as int);
                if pos == n {
                    assert(runs@ + Seq::<DataRun>::empty() =~= runs@);
                }
            }
        }
        Ok(runs)
    }
}

} // verus!

verus! {

/// NTFS attribute type codes.
#[derive(Debug, Clone, Copy, PartialEq, Eq, Structural)]
pub enum AttributeType {
    StandardInformation,
    AttributeList,
    FileName,
    ObjectId,
    SecurityDescriptor,
    VolumeName,
    VolumeInformation,
    Data,
    IndexRoot,
    IndexAllocation,
    Bitmap,
    ReparsePoint,
    EaInformation,
    Ea,
    LoggedUtilityStream,
    EndMarker,
    Unknown(u32),
}

/// The attribute type of a type code.
pub open spec fn attribute_type_of(v: u32) -> AttributeType {
    if v == 0x10 {
        AttributeType::StandardInformation
    } else if v == 0x20 {
        AttributeType::AttributeList
    } else if v == 0x30 {
        AttributeType::FileName
    } else if v == 0x40 {
        AttributeType::ObjectId
    } else if v == 0x50 {
        AttributeType::SecurityDescriptor
    } else if v == 0x60 {
        AttributeType::VolumeName
    } else if v == 0x70 {
        AttributeType::VolumeInformation
    } else if v == 0x80 {
        AttributeType::Data
    } else if v == 0x90 {
        AttributeType::IndexRoot
    } else if v == 0xA0 {
        AttributeType::IndexAllocation
    } else if v == 0xB0 {
        AttributeType::Bitmap
    } else if v == 0xC0 {
        AttributeType::ReparsePoint
    } else if v == 0xD0 {
        AttributeType::EaInformation
    } else if v == 0xE0 {
        AttributeType::Ea
    } else if v == 0x100 {
        AttributeType::LoggedUtilityStream
    } else if v == 0xFFFFFFFF {
        AttributeType::EndMarker
    } else {
        AttributeType::Unknown(v)
    }
}

impl AttributeType {
    pub fn from_u32(val: u32) -> (r: Self)
        ensures
            r == attribute_type_of(val),
    {
        match val {
            0x10 => AttributeType::StandardInformation,
            0x20 => AttributeType::AttributeList,
            0x30 => AttributeType::FileName,
            0x40 => AttributeType::ObjectId,
            0x50 => AttributeType::SecurityDescriptor,
            0x60 => AttributeType::VolumeName,
            0x70 => AttributeType::VolumeInformation,
            0x80 => AttributeType::Data,
            0x90 => AttributeType::IndexRoot,
            0xA0 => AttributeType::IndexAllocation,
            0xB0 => AttributeType::Bitmap,
            0xC0 => AttributeType::ReparsePoint,
            0xD0 => AttributeType::EaInformation,
            0xE0 => AttributeType::Ea,
            0x100 => AttributeType::LoggedUtilityStream,
            0xFFFFFFFF => AttributeType::EndMarker,
            other => AttributeType::Unknown(other),
        }
    }
}

/// A decoded `$STANDARD_INFORMATION` attribute.
#[derive(Debug, Clone)]
pub struct StandardInformation {
    pub creation_time: Option<UtcTime>,
    pub alteration_time: Option<UtcTime>,
    pub mft_altered_time: Option<UtcTime>,
    pub read_time: Option<UtcTime>,
    pub dos_permissions: u32,
}

impl StandardInformation {
    pub fn parse(data: &[u8]) -> (r: Result<Self>)
        ensures
            data@.len() < 36 ==> r == Err::<Self, RecoveryError>(
                out_of_bounds(0, 36, data@.len() as usize),
            ),
            data@.len() >= 36 ==> (r matches Ok(si) && si.creation_time == spec_filetime_to_datetime(
                le64(data@, 0),
            ) && si.alteration_time == spec_filetime_to_datetime(le64(data@, 8)) && si.mft_altered_time
                == spec_filetime_to_datetime(le64(data@, 16)) && si.read_time == spec_filetime_to_datetime(
                le64(data@, 24),
            ) && si.dos_permissions == le32(data@, 32)),
    {
        if data.len() < 36 {
            return Err(RecoveryError::BufferOutOfBounds {
                offset: 0,
                required: 36,
                available: data.len(),
            });
        }
        let mut reader = BinaryReader::new(data);
        let creation_ft = reader.read_u64_le()?;
        let alteration_ft = reader.read_u64_le()?;
        let mft_altered_ft = reader.read_u64_le()?;
        let read_ft = reader.read_u64_le()?;
        let dos_permissions = reader.read_u32_le()?;
        Ok(StandardInformation {
            creation_time: filetime_to_datetime(creation_ft),
            alteration_time: filetime_to_datetime(alteration_ft),
            mft_altered_time: filetime_to_datetime(mft_altered_ft),
            read_time: filetime_to_datetime(read_ft),
            dos_permissions,
        })
    }
}

/// A decoded `$FILE_NAME` attribute.
#[derive(Debug, Clone)]
pub struct FileNameAttribute {
    pub parent_directory_record: u64,
    pub parent_directory_seq: u16,
    pub creation_time: Option<UtcTime>,
    pub alteration_time: Option<UtcTime>,
    pub allocated_size: u64,
    pub real_size: u64,
    pub flags: u32,
    pub namespace: u8,
    pub name: String,
}

/// Whether a `$FILE_NAME` value parses: its fixed part and the name it announces fit.
pub open spec fn file_name_parses(d: Seq<u8>) -> bool {
    d.len() >= 66 && 66 + 2 * d[64] <= d.len()
}

/// Whether `f` holds the fields of the `$FILE_NAME` value `d`.
pub open spec fn file_name_fields(f: FileNameAttribute, d: Seq<u8>) -> bool {
    &&& f.parent_directory_record == le64(d, 0) & 0x0000_FFFF_FFFF_FFFF
    &&& f.parent_directory_seq == (le64(d, 0) >> 48) as u16
    &&& f.creation_time == spec_filetime_to_datetime(le64(d, 8))
    &&& f.alteration_time == spec_filetime_to_datetime(le64(d, 16))
    &&& f.allocated_size == le64(d, 40)
    &&& f.real_size == le64(d, 48)
    &&& f.flags == le32(d, 56)
    &&& f.namespace == d[65]
    &&& f.name@ == utf16_lossy(utf16_units(d.subrange(66, 66 + 2 * d[64])))
}

impl FileNameAttribute {
    pub fn parse(data: &[u8]) -> (r: Result<Self>)
        ensures
            data@.len() < 66 ==> r == Err::<Self, RecoveryError>(
                out_of_bounds(0, 66, data@.len() as usize),
            ),
            data@.len() >= 66 && !file_name_parses(data@) ==> r == Err::<Self, RecoveryError>(
                read_error(66, 2 * data@[64] as nat, data@.len()),
            ),
            file_name_parses(data@) ==> (r matches Ok(f) && file_name_fields(f, data@)),
    {
        if data.len() < 66 {
            return Err(RecoveryError::BufferOutOfBounds {
                offset: 0,
                required: 66,
                available: data.len(),
            });
        }
        let mut reader = BinaryReader::new(data);
        let parent_ref = reader.read_u64_le()?;
        let parent_record = parent_ref & 0x0000_FFFF_FFFF_FFFF;
        let parent_seq = (parent_ref >> 48) as u16;
        let creation_ft = reader.read_u64_le()?;
        let alteration_ft = reader.read_u64_le()?;
        let _mft_altered_ft = reader.read_u64_le()?;
        let _read_ft = reader.read_u64_le()?;
        let allocated_size = reader.read_u64_le()?;
        let real_size = reader.read_u64_le()?;
        let flags = reader.read_u32_le()?;
        let _reparse = reader.read_u32_le()?;
        let name_length = reader.read_u8()? as usize;
        let namespace = reader.read_u8()?;
        let name = reader.read_utf16_le_string(name_length)?;
        Ok(FileNameAttribute {
            parent_directory_record: parent_record,
            parent_directory_seq: parent_seq,
            creation_time: filetime_to_datetime(creation_ft),
            alteration_time: filetime_to_datetime(alteration_ft),
            allocated_size,
            real_size,
            flags,
            namespace,
            name,
        })
    }
}

/// The content of an attribute: stored inside the record, or in clusters described by runs.
#[derive(Debug, Clone)]
pub enum AttributeData {
    Resident(Vec<u8>),
    NonResident { allocated_size: u64, real_size: u64, data_runs: Vec<DataRun> },
}

/// One attribute record of an MFT record.
#[derive(Debug, Clone)]
pub struct NtfsAttribute {
    pub attr_type: AttributeType,
    pub record_length: u32,
    pub is_non_resident: bool,
    pub name: String,
    pub flags: u16,
    pub attribute_id: u16,
    pub data: AttributeData,
}

/// What parsing the attribute header at offset `o` of record `b` comes to.
pub enum AttrStep {
    /// No attribute here: the end of the record or an end marker.
    End,
    /// An attribute of the given record length.
    Next(u32),
    /// A record length that is zero or runs past the record.
    BadLength(u32),
    /// A header field past the end of the record: the out-of-bounds error's fields.
    Short(usize, usize, usize),
}

/// The header step at offset `o` of record `b`.
pub open spec fn attr_step(b: Seq<u8>, o: int) -> AttrStep {
    let n = b.len();
    let len = n - o;
    if o + 4 > n {
        AttrStep::End
    } else if le32(b, o) == 0xFFFF_FFFF || le32(b, o) == 0 {
        AttrStep::End
    } else if o + 16 > n {
        AttrStep::End
    } else {
        let rl = le32(b, o + 4);
        if rl == 0 || o + rl > n {
            AttrStep::BadLength(rl)
        } else if b[o + 8] == 0 {
            if len < 20 {
                AttrStep::Short(16, 4, (len - 16) as usize)
            } else if len < 22 {
                AttrStep::Short(20, 2, (len - 20) as usize)
            } else {
                AttrStep::Next(rl)
            }
        } else {
            if len < 32 {
                AttrStep::Short(32, 0, len as usize)
            } else if len < 34 {
                AttrStep::Short(32, 2, (len - 32) as usize)
            } else if len < 40 {
                AttrStep::Short(40, 0, len as usize)
            } else if len < 48 {
                AttrStep::Short(40, 8, (len - 40) as usize)
            } else if len < 56 {
                AttrStep::Short(48, 8, (len - 48) as usize)
            } else {
                AttrStep::Next(rl)
            }
        }
    }
}

/// The name of the attribute at `o` of record `b` with record length `rl`.
pub open spec fn attr_name(b: Seq<u8>, o: int, rl: int) -> Seq<char> {
    let name_len = b[o + 9] as int;
    let name_off = le16(b, o + 10) as int;
    if name_len > 0 && name_off + 2 * name_len <= rl {
        utf16_lossy(utf16_units(b.subrange(o + name_off, o + name_off + 2 * name_len)))
    } else {
        Seq::empty()
    }
}

/// The runlist bytes of a non-resident attribute at `o` with record length `rl`.
pub open spec fn attr_run_bytes(b: Seq<u8>, o: int, rl: int) -> Seq<u8> {
    let ro = le16(b, o + 32) as int;
    if ro < rl {
        b.subrange(o + ro, o + rl)
    } else {
        Seq::empty()
    }
}

/// The runs kept for a runlist: its decoding when that is well-formed and does not overflow.
pub open spec fn kept_runs(d: Seq<u8>) -> Seq<DataRun> {
    if runs_decodable(d, 0) {
        match runs_from(d, 0) {
            Some(runs) => runs,
            None => Seq::empty(),
        }
    } else {
        Seq::empty()
    }
}

/// Whether `a` holds the attribute of record length `rl` stored at `o` of record `b`.
pub open spec fn attribute_fields(a: NtfsAttribute, b: Seq<u8>, o: int, rl: u32) -> bool {
    &&& a.attr_type == attribute_type_of(le32(b, o))
    &&& a.record_length == rl
    &&& a.is_non_resident == (b[o + 8] != 0)
    &&& a.flags == le16(b, o + 12)
    &&& a.attribute_id == le16(b, o + 14)
    &&& a.name@ == attr_name(b, o, rl as int)
    &&& attr_data_fields(a.data, b, o, rl)
}

/// Where an attribute record at byte `o` keeps its fields: the type is the little-endian 32-bit
/// value at `o`, the flags and the attribute id the 16-bit values at `o + 12` and `o + 14`,
/// and the byte at `o + 8` tells a non-resident attribute (non-zero) from a resident one. A
/// resident attribute's value is the run of bytes, of the 32-bit length at `o + 16`, that
/// starts at `o` plus the 16-bit offset at `o + 20`, when it lies within the record (else it
/// is empty). A non-resident attribute's allocated and real sizes are the 64-bit values at
/// `o + 40` and `o + 48`, and its runs are decoded from the bytes between `o` plus the 16-bit
/// runlist offset at `o + 32` and the record's end.
pub proof fn lemma_attribute_layout(a: NtfsAttribute, b: Seq<u8>, o: int, rl: u32)
    requires
        0 <= o,
        o + 22 <= b.len(),
        attribute_fields(a, b, o, rl),
    ensures
        a.attr_type == attribute_type_of(le_value(b, o, 4) as u32),
        a.flags == le_value(b, o + 12, 2),
        a.attribute_id == le_value(b, o + 14, 2),
        a.is_non_resident == (b[o + 8] != 0),
        b[o + 8] == 0 ==> ({
            let vl = le_value(b, o + 16, 4);
            let vo = le_value(b, o + 20, 2);
            a.data matches AttributeData::Resident(v) && v@ == (if vo + vl <= rl {
                b.subrange(o + vo, o + vo + vl)
            } else {
                Seq::empty()
            })
        }),
        b[o + 8] != 0 && o + 56 <= b.len() ==> ({
            let ro = le_value(b, o + 32, 2);
            a.data matches AttributeData::NonResident { allocated_size, real_size, data_runs }
                && allocated_size == le_value(b, o + 40, 8) && real_size == le_value(b, o + 48, 8)
                && data_runs@ == kept_runs(if ro < rl { b.subrange(o + ro, o + rl) } else { Seq::empty() })
        }),
{
    lemma_byte_order(b, o);
    lemma_byte_order(b, o + 12);
    lemma_byte_order(b, o + 14);
    lemma_byte_order(b, o + 16);
    lemma_byte_order(b, o + 20);
    if b[o + 8] != 0 && o + 56 <= b.len() {
        lemma_byte_order(b, o + 32);
        lemma_byte_order(b, o + 40);
        lemma_byte_order(b, o + 48);
    }
}

/// Where a file name attribute's value keeps its fields: the parent directory's record number
/// is the little-endian value of the first six bytes and its sequence number the 16-bit value
/// at byte 6; the allocated and real sizes are the 64-bit values at 40 and 48, the flags the
/// 32-bit value at 56, the namespace the byte at 65, and the name the UTF-16 text of as many
/// units as the byte at 64 says, from byte 66.
pub proof fn lemma_file_name_layout(f: FileNameAttribute, d: Seq<u8>)
    requires
        file_name_parses(d),
        file_name_fields(f, d),
    ensures
        f.parent_directory_record == le_value(d, 0, 6),
        f.parent_directory_seq == le_value(d, 6, 2),
        f.allocated_size == le_value(d, 40, 8),
        f.real_size == le_value(d, 48, 8),
        f.flags == le_value(d, 56, 4),
        f.namespace == d[65],
        f.name@ == utf16_lossy(utf16_units(d.subrange(66, 66 + 2 * d[64]))),
{
    lemma_byte_order(d, 0);
    lemma_byte_order(d, 40);
    lemma_byte_order(d, 48);
    lemma_byte_order(d, 56);
    let x = le64(d, 0);
    reveal_with_fuel(le_value, 9);
    let lo = le_value(d, 0, 6);
    let hi = le_value(d, 6, 2);
    assert(le_value(d, 0, 8) == lo + 281474976710656 * hi);
    assert(0 <= lo < 281474976710656);
    assert(0 <= hi < 65536);
    assert(x & 0x0000_FFFF_FFFF_FFFF == x % 0x1_0000_0000_0000) by (bit_vector);
    assert((x >> 48) as u16 == x / 0x1_0000_0000_0000) by (bit_vector);
    assert(x % 0x1_0000_0000_0000 == lo && x / 0x1_0000_0000_0000 == hi) by (nonlinear_arith)
        requires
            x == lo + 281474976710656 * hi,
            0 <= lo < 281474976710656,
            0 <= hi < 65536,
    ;
}

/// The message of the error for an attribute record length.
pub open spec fn bad_length_message(rl: u32) -> Seq<char> {
    "Invalid attribute record length: "@ + dec_text(rl as nat)
}

/// Whether `r` is what parsing an attribute at `o` of `b` returns.
pub open spec fn attribute_parse_result(r: Result<Option<NtfsAttribute>>, b: Seq<u8>, o: int) -> bool {
    match attr_step(b, o) {
        AttrStep::End => r == Ok::<Option<NtfsAttribute>, RecoveryError>(None),
        AttrStep::Next(rl) => r matches Ok(Some(a)) && attribute_fields(a, b, o, rl),
        AttrStep::BadLength(rl) => r matches Err(RecoveryError::NtfsError(m)) && m@
            == bad_length_message(rl),
        AttrStep::Short(p, c, av) => r == Err::<Option<NtfsAttribute>, RecoveryError>(
            out_of_bounds(p, c, av),
        ),
    }
}

/// Whether `d` holds the content of the attribute at `o` of `b` with record length `rl`.
pub open spec fn attr_data_fields(d: AttributeData, b: Seq<u8>, o: int, rl: u32) -> bool {
    if b[o + 8] == 0 {
        let vl = le32(b, o + 16) as int;
        let vo = le16(b, o + 20) as int;
        d matches AttributeData::Resident(v) && v@ == (if vo + vl <= rl {
            b.subrange(o + vo, o + vo + vl)
        } else {
            Seq::empty()
        })
    } else {
        d matches AttributeData::NonResident { allocated_size, real_size, data_runs }
            && allocated_size == le64(b, o + 40) && real_size == le64(b, o + 48) && data_runs@
            == kept_runs(attr_run_bytes(b, o, rl as int))
    }
}

fn attr_name_at(b: &[u8], o: usize, rl: usize) -> (name: String)
    requires
        o + 16 <= b@.len(),
        o + rl <= b@.len(),
    ensures
        name@ == attr_name(b@, o as int, rl as int),
{
    let n = b.len();
    let name_len = b[o + 9] as usize;
    let name_offset = get_le16(b, o + 10) as usize;
    if name_len > 0 && name_offset + name_len * 2 <= rl {
        let mut name_reader = BinaryReader::new(&b[o + name_offset..n]);
        match name_reader.read_utf16_le_string(name_len) {
            Ok(s) => {
                assert(b@.subrange(o + name_offset, n as int).subrange(0, 2 * name_len)
                    =~= b@.subrange(o + name_offset, o + name_offset + 2 * name_len));
                s
            },
            Err(_) => String::new(),
        }
    } else {
        String::new()
    }
}

fn resident_value(b: &[u8], o: usize, rl: usize) -> (r: Result<AttributeData>)
    requires
        o + 16 <= b@.len(),
        0 < rl,
        o + rl <= b@.len(),
        rl <= u32::MAX,
        b@[o + 8] == 0,
    ensures
        b@.len() - o < 20 ==> r == Err::<AttributeData, RecoveryError>(out_of_bounds(16, 4, (b@.len() - o - 16) as usize)),
        20 <= b@.len() - o < 22 ==> r == Err::<AttributeData, RecoveryError>(out_of_bounds(20, 2, (b@.len() - o - 20) as usize)),
        b@.len() - o >= 22 ==> (r matches Ok(d) && attr_data_fields(d, b@, o as int, rl as u32)),
{
    let len = b.len() - o;
    if len < 20 {
        return Err(RecoveryError::BufferOutOfBounds { offset: 16, required: 4, available: len - 16 });
    }
    if len < 22 {
        return Err(RecoveryError::BufferOutOfBounds { offset: 20, required: 2, available: len - 20 });
    }
    let value_length = get_le32(b, o + 16);
    let value_offset = get_le16(b, o + 20);
    if value_offset as u64 + value_length as u64 <= rl as u64 {
        let vs = o + value_offset as usize;
        let ve = vs + value_length as usize;
        Ok(AttributeData::Resident(slice_to_vec(&b[vs..ve])))
    } else {
        Ok(AttributeData::Resident(Vec::new()))
    }
}

fn nonresident_value(b: &[u8], o: usize, rl: usize) -> (r: Result<AttributeData>)
    requires
        o + 16 <= b@.len(),
        0 < rl,
        o + rl <= b@.len(),
        rl <= u32::MAX,
        b@[o + 8] != 0,
    ensures
        b@.len() - o < 32 ==> r == Err::<AttributeData, RecoveryError>(out_of_bounds(32, 0, (b@.len() - o) as usize)),
        32 <= b@.len() - o < 34 ==> r == Err::<AttributeData, RecoveryError>(out_of_bounds(32, 2, (b@.len() - o - 32) as usize)),
        34 <= b@.len() - o < 40 ==> r == Err::<AttributeData, RecoveryError>(out_of_bounds(40, 0, (b@.len() - o) as usize)),
        40 <= b@.len() - o < 48 ==> r == Err::<AttributeData, RecoveryError>(out_of_bounds(40, 8, (b@.len() - o - 40) as usize)),
        48 <= b@.len() - o < 56 ==> r == Err::<AttributeData, RecoveryError>(out_of_bounds(48, 8, (b@.len() - o - 48) as usize)),
        b@.len() - o >= 56 ==> (r matches Ok(d) && attr_data_fields(d, b@, o as int, rl as u32)),
{
    let len = b.len() - o;
    if len < 32 {
        return Err(RecoveryError::BufferOutOfBounds { offset: 32, required: 0, available: len });
    }
    if len < 34 {
        return Err(RecoveryError::BufferOutOfBounds { offset: 32, required: 2, available: len - 32 });
    }
    if len < 40 {
        return Err(RecoveryError::BufferOutOfBounds { offset: 40, required: 0, available: len });
    }
    if len < 48 {
        return Err(RecoveryError::BufferOutOfBounds { offset: 40, required: 8, available: len - 40 });
    }
    if len < 56 {
        return Err(RecoveryError::BufferOutOfBounds { offset: 48, required: 8, available: len - 48 });
    }
    let runlist_offset = get_le16(b, o + 32) as usize;
    let allocated_size = get_le64(b, o + 40);
    let real_size = get_le64(b, o + 48);
    let run_bytes: &[u8] = if runlist_offset < rl {
        &b[o + runlist_offset..o + rl]
    } else {
        &b[0..0]
    };
    assert(run_bytes@ =~= attr_run_bytes(b@, o as int, rl as int));
    let data_runs = if runlist_decodable(run_bytes) {
        match DataRun::parse_runlist(run_bytes) {
            Ok(v) => v,
            Err(_) => Vec::new(),
        }
    } else {
        Vec::new()
    };
    Ok(AttributeData::NonResident { allocated_size, real_size, data_runs })
}

impl NtfsAttribute {
    /// Parses the attribute record at `offset` of an MFT record.
    pub fn parse(record_data: &[u8], offset: usize) -> (r: Result<Option<Self>>)
        ensures
            attribute_parse_result(r, record_data@, offset as int),
    {
        let n = record_data.len();
        if offset > n || n - offset < 4 {
            return Ok(None);
        }
        let attr_type_raw = get_le32(record_data, offset);
        let attr_type = AttributeType::from_u32(attr_type_raw);
        if attr_type_raw == 0xFFFF_FFFF || attr_type_raw == 0 {
            return Ok(None);
        }
        if n - offset < 16 {
            return Ok(None);
        }
        let record_length = get_le32(record_data, offset + 4);
        if record_length == 0 || record_length as usize > n - offset {
            let mut msg = String::from_str("Invalid attribute record length: ");
            push_dec(&mut msg, record_length as u64);
            return Err(RecoveryError::NtfsError(msg));
        }
        let rl = record_length as usize;
        let is_non_resident = record_data[offset + 8] != 0;
        let flags = get_le16(record_data, offset + 12);
        let attribute_id = get_le16(record_data, offset + 14);
        let name = attr_name_at(record_data, offset, rl);
        let data = if !is_non_resident {
            resident_value(record_data, offset, rl)?
        } else {
            nonresident_value(record_data, offset, rl)?
        };
        Ok(Some(NtfsAttribute {
            attr_type,
            record_length,
            is_non_resident,
            name,
            flags,
            attribute_id,
            data,
        }))
    }
}

} // verus!
