//! Signature-based file carving over buffers and block devices.

use vstd::prelude::*;
use crate::device::{bytes_from, BlockDevice};
use crate::endian::{bytes_at, matches_at};
use crate::error::Result;
use crate::signatures::{
    is_registry_entry, lemma_validated_within, registry_entry, signature_registry, size_opt,
    validated_size, FileType, FileValidator, SignatureDef, SIGNATURE_COUNT,
};
use crate::text::{hex_padded, push_str};

verus! {

/// The positions at which the carver looks for headers.
#[derive(Debug, Clone, Copy, PartialEq, Eq, Structural)]
pub enum CarveAlignment {
    Sector512,
    Sector4096,
    ByteAligned,
}

/// The distance between inspected positions.
pub open spec fn step_of(a: CarveAlignment) -> int {
    match a {
        CarveAlignment::Sector512 => 512,
        CarveAlignment::Sector4096 => 4096,
        CarveAlignment::ByteAligned => 1,
    }
}

impl CarveAlignment {
    pub fn step_bytes(&self) -> (r: usize)
        ensures
            r == step_of(*self),
    {
        match self {
            CarveAlignment::Sector512 => 512,
            CarveAlignment::Sector4096 => 4096,
            CarveAlignment::ByteAligned => 1,
        }
    }
}

/// A file found by its signature.
#[derive(Debug, Clone, Copy, PartialEq, Eq, Structural)]
pub struct CarvedFile {
    pub offset: u64,
    pub file_type: FileType,
    pub size: usize,
    pub is_validated: bool,
}

/// Carving settings.
pub struct CarvingScanner {
    pub alignment: CarveAlignment,
    pub chunk_size: usize,
    pub max_file_size: usize,
}

/// The first signature, from the `k`-th of the registry on, whose magic stands at its offset
/// in `s` and whose validator accepts the bytes it may inspect (at most its carve limit):
/// the file type and the size found.
pub open spec fn carve_hit_from(s: Seq<u8>, k: int) -> Option<(FileType, int)>
    decreases SIGNATURE_COUNT - k,
{
    if k < 0 || k >= SIGNATURE_COUNT {
        None
    } else {
        let e = registry_entry(k);
        if bytes_at(s, e.2, e.1) {
            let lim = if s.len() < e.3 {
                s.len() as int
            } else {
                e.3
            };
            match validated_size(e.0, s.subrange(0, lim)) {
                Some(n) => Some((e.0, n)),
                None => carve_hit_from(s, k + 1),
            }
        } else {
            carve_hit_from(s, k + 1)
        }
    }
}

/// The file recognized at the start of `s`, if any.
pub open spec fn carve_hit(s: Seq<u8>) -> Option<(FileType, int)> {
    carve_hit_from(s, 0)
}

/// The number of steps that a file of `n` bytes overlaps, at least one.
pub open spec fn covered_steps(n: int, step: int) -> int {
    let q = n / step + (if n % step != 0 {
        1int
    } else {
        0int
    });
    if q >= 1 {
        q
    } else {
        1
    }
}

/// The next inspected position after a file of `n` bytes found at `i`: the first step
/// boundary past the steps that the file overlaps.
pub open spec fn next_after_hit(i: int, n: int, step: int) -> int {
    i + covered_steps(n, step) * step
}

/// The files found by scanning `buf` from position `i`, at every `step`-th position before
/// `lim`, skipping past each file found; offsets are counted from `base`.
pub open spec fn carve_walk(buf: Seq<u8>, i: int, lim: int, step: int, base: int) -> Seq<CarvedFile>
    decreases (if i < lim { lim - i } else { 0 }),
{
    if i < 0 || i >= lim || step <= 0 {
        Seq::empty()
    } else {
        match carve_hit(buf.subrange(i, buf.len() as int)) {
            Some((t, n)) => {
                proof {
                    lemma_next_after_hit(i, n, step);
                }
                seq![CarvedFile { offset: (base + i) as u64, file_type: t, size: n as usize, is_validated: true }]
                    + carve_walk(buf, next_after_hit(i, n, step), lim, step, base)
            },
            None => carve_walk(buf, i + step, lim, step, base),
        }
    }
}

/// The next position after a file lies past the step after the current one.
pub proof fn lemma_next_after_hit(i: int, n: int, step: int)
    requires
        step > 0,
    ensures
        next_after_hit(i, n, step) >= i + step,
{
    let skip = covered_steps(n, step);
    assert(skip * step >= step) by (nonlinear_arith)
        requires
            skip >= 1,
            step > 0,
    ;
}

/// The file recognized at position `i` of `buf`.
fn carve_at(buf: &[u8], i: usize, registry: &Vec<SignatureDef>) -> (r: Option<(FileType, usize)>)
    requires
        i <= buf@.len(),
        registry@.len() == SIGNATURE_COUNT,
        forall|k: int| 0 <= k < SIGNATURE_COUNT ==> is_registry_entry(#[trigger] registry@[k], k),
    ensures
        match r {
            Some((t, n)) => carve_hit(buf@.subrange(i as int, buf@.len() as int)) == Some((t, n as int)),
            None => carve_hit(buf@.subrange(i as int, buf@.len() as int)) is None,
        },
        r matches Some((t, n)) ==> n <= buf@.len() - i,
{
    let ghost s = buf@.subrange(i as int, buf@.len() as int);
    let n = buf.len();
    let avail = n - i;
    let mut k: usize = 0;
    while k < SIGNATURE_COUNT
        invariant
            n == buf@.len(),
            i <= buf@.len(),
            avail == buf@.len() - i,
            s == buf@.subrange(i as int, buf@.len() as int),
            registry@.len() == SIGNATURE_COUNT,
            forall|k: int| 0 <= k < SIGNATURE_COUNT ==> is_registry_entry(#[trigger] registry@[k], k),
            carve_hit(s) == carve_hit_from(s, k as int),
            k <= SIGNATURE_COUNT,
        decreases SIGNATURE_COUNT - k,
    {
        let sig = &registry[k];
        proof {
            assert(is_registry_entry(registry@[k as int], k as int));
        }
        let off = sig.header_offset;
        let magic = sig.header_magic.as_slice();
        let mut matched = false;
        if off <= avail {
            if magic.len() <= avail - off {
                matched = matches_at(buf, i + off, magic);
                proof {
                    assert(s.subrange(off as int, off + magic@.len()) =~= buf@.subrange(
                        i + off,
                        i + off + magic@.len(),
                    ));
                }
            }
        }
        assert(matched == bytes_at(s, off as int, magic@));
        if matched {
            let lim: usize = if (avail as u64) < sig.max_carve_size {
                avail
            } else {
                sig.max_carve_size as usize
            };
            assert(lim <= avail);
            let sub = &buf[i..i + lim];
            proof {
                assert(sub@ =~= s.subrange(0, lim as int));
            }
            if let Some(n) = FileValidator::validate_and_calculate_size(sig.file_type, sub) {
                proof {
                    lemma_validated_within(sig.file_type, sub@);
                }
                return Some((sig.file_type, n));
            }
        }
        k += 1;
    }
    None
}


/// `f` was found in `buf` at some position, with offsets counted from `base`: the file
/// recognized at that position has `f`'s type and size.
pub open spec fn carved_in(f: CarvedFile, buf: Seq<u8>, base: int) -> bool {
    exists|j: int|
        0 <= j <= buf.len() && f.offset == base + j && #[trigger] carve_hit(
            buf.subrange(j, buf.len() as int),
        ) == Some((f.file_type, f.size as int)) && f.is_validated
}

proof fn lemma_walk_carved(buf: Seq<u8>, i: int, lim: int, step: int, base: int)
    requires
        lim <= buf.len(),
        buf.len() <= usize::MAX,
        base + buf.len() <= u64::MAX,
        0 <= base,
    ensures
        forall|k: int|
            0 <= k < carve_walk(buf, i, lim, step, base).len() ==> carved_in(
                #[trigger] carve_walk(buf, i, lim, step, base)[k],
                buf,
                base,
            ),
    decreases (if i < lim { lim - i } else { 0 }),
{
    if !(i < 0 || i >= lim || step <= 0) {
        let w = carve_walk(buf, i, lim, step, base);
        match carve_hit(buf.subrange(i, buf.len() as int)) {
            Some((t, n)) => {
                lemma_next_after_hit(i, n, step);
                lemma_walk_carved(buf, next_after_hit(i, n, step), lim, step, base);
                lemma_hit_within(buf.subrange(i, buf.len() as int));
                let rest = carve_walk(buf, next_after_hit(i, n, step), lim, step, base);
                let f = CarvedFile {
                    offset: (base + i) as u64,
                    file_type: t,
                    size: n as usize,
                    is_validated: true,
                };
                assert(w == seq![f] + rest);
                assert(carved_in(f, buf, base)) by {
                    assert(f.size as int == n);
                    assert(carve_hit(buf.subrange(i, buf.len() as int)) == Some((f.file_type, f.size as int)));
                }
                assert forall|k: int| 0 <= k < w.len() implies carved_in(#[trigger] w[k], buf, base) by {
                    if k == 0 {
                        assert(w[k] == f);
                    } else {
                        assert(w[k] == rest[k - 1]);
                    }
                }
            },
            None => {
                lemma_walk_carved(buf, i + step, lim, step, base);
                assert(w == carve_walk(buf, i + step, lim, step, base));
            },
        }
    }
}

/// The size of a recognized file never exceeds the bytes it was found in.
pub proof fn lemma_hit_within(s: Seq<u8>)
    ensures
        carve_hit(s) matches Some((t, n)) ==> 0 <= n <= s.len(),
{
    lemma_hit_from_within(s, 0);
}

proof fn lemma_hit_from_within(s: Seq<u8>, k: int)
    ensures
        carve_hit_from(s, k) matches Some((t, n)) ==> 0 <= n <= s.len(),
    decreases SIGNATURE_COUNT - k,
{
    if 0 <= k < SIGNATURE_COUNT {
        let e = registry_entry(k);
        lemma_hit_from_within(s, k + 1);
        if bytes_at(s, e.2, e.1) {
            let lim = if s.len() < e.3 {
                s.len() as int
            } else {
                e.3
            };
            lemma_validated_within(e.0, s.subrange(0, lim));
        }
    }
}

/// Scans `buf` at every `step`-th position before `lim`, skipping past each file found.
fn scan_region(buf: &[u8], lim: usize, base: u64, step: usize, registry: &Vec<SignatureDef>) -> (r: Vec<CarvedFile>)
    requires
        step > 0,
        lim <= buf@.len(),
        base + buf@.len() <= u64::MAX,
        registry@.len() == SIGNATURE_COUNT,
        forall|k: int| 0 <= k < SIGNATURE_COUNT ==> is_registry_entry(#[trigger] registry@[k], k),
    ensures
        r@ == carve_walk(buf@, 0, lim as int, step as int, base as int),
{
    let mut results: Vec<CarvedFile> = Vec::new();
    let mut i: usize = 0;
    while i < lim
        invariant
            step > 0,
            lim <= buf@.len(),
            base + buf@.len() <= u64::MAX,
            registry@.len() == SIGNATURE_COUNT,
            forall|k: int| 0 <= k < SIGNATURE_COUNT ==> is_registry_entry(#[trigger] registry@[k], k),
            carve_walk(buf@, 0, lim as int, step as int, base as int) == results@ + carve_walk(
                buf@,
                i as int,
                lim as int,
                step as int,
                base as int,
            ),
        decreases (if i < lim { lim - i } else { 0 }),
    {
        let ghost before = results@;
        let ghost w = carve_walk(buf@, i as int, lim as int, step as int, base as int);
        match carve_at(buf, i, registry) {
            Some((t, n)) => {
                let f = CarvedFile { offset: base + i as u64, file_type: t, size: n, is_validated: true };
                let ghost rest = carve_walk(buf@, next_after_hit(i as int, n as int, step as int), lim as int, step as int, base as int);
                proof {
                    assert(w == seq![f] + rest);
                }
                results.push(f);
                let extra: usize = if n % step != 0 {
                    1
                } else {
                    0
                };
                proof {
                    assert(extra == 1 ==> n / step < usize::MAX) by (nonlinear_arith)
                        requires
                            step > 0,
                            extra == 1 ==> n % step != 0,
                            n <= usize::MAX,
                    ;
                }
                let q = n / step + extra;
                let skip = if q >= 1 {
                    q
                } else {
                    1
                };
                proof {
                    assert(skip == covered_steps(n as int, step as int));
                }
                let next = match skip.checked_mul(step) {
                    Some(adv) => i.checked_add(adv),
                    None => None,
                };
                proof {
                    assert(next_after_hit(i as int, n as int, step as int) == i + skip * step);
                    assert(skip * step >= 0) by (nonlinear_arith)
                        requires
                            skip >= 1,
                            step > 0,
                    ;
                }
                match next {
                    Some(x) => {
                        i = x;
                    },
                    None => {
                        assert(rest =~= Seq::<CarvedFile>::empty());
                        i = lim;
                    },
                }
                proof {
                    assert(results@ == before.push(f));
                    assert(before + (seq![f] + rest) =~= before.push(f) + rest);
                }
            },
            None => {
                assert(w == carve_walk(buf@, i + step, lim as int, step as int, base as int));
                match i.checked_add(step) {
                    Some(x) => {
                        i = x;
                    },
                    None => {
                        assert(carve_walk(buf@, i + step, lim as int, step as int, base as int) =~= Seq::<CarvedFile>::empty());
                        i = lim;
                    },
                }
            },
        }
    }
    proof {
        assert(results@ + Seq::<CarvedFile>::empty() =~= results@);
    }
    results
}

/// `f` was recognized in some window of `bytes`: at position `j` (offset `base + j`), the
/// file recognized in the bytes from `j` has `f`'s type and size.
pub open spec fn carved_window(f: CarvedFile, bytes: Seq<u8>, base: int) -> bool {
    exists|j: int, l: int|
        0 <= j && 0 <= l && j + l <= bytes.len() && f.offset == base + j && #[trigger] carve_hit(
            bytes.subrange(j, j + l),
        ) == Some((f.file_type, f.size as int)) && f.is_validated
}

/// `f` is a file recognized on the device at its offset.
pub open spec fn carved_on(f: CarvedFile, dev: Seq<u8>) -> bool {
    carved_window(f, dev, 0)
}

/// No two files share an offset.
pub open spec fn distinct_offsets(v: Seq<CarvedFile>) -> bool {
    forall|i: int, j: int| 0 <= i < j < v.len() ==> #[trigger] v[i].offset != #[trigger] v[j].offset
}

/// Offsets strictly increase.
pub open spec fn sorted_by_offset(v: Seq<CarvedFile>) -> bool {
    forall|i: int, j: int| 0 <= i < j < v.len() ==> #[trigger] v[i].offset < #[trigger] v[j].offset
}

proof fn lemma_in_window(f: CarvedFile, buf: Seq<u8>, base: int)
    requires
        carved_in(f, buf, base),
    ensures
        carved_window(f, buf, base),
{
    let j = choose|j: int|
        0 <= j <= buf.len() && f.offset == base + j && #[trigger] carve_hit(
            buf.subrange(j, buf.len() as int),
        ) == Some((f.file_type, f.size as int)) && f.is_validated;
    let l = buf.len() - j;
    assert(buf.subrange(j, j + l) == buf.subrange(j, buf.len() as int));
}

proof fn lemma_window_sub(f: CarvedFile, bytes: Seq<u8>, r: int, m: int, base: int)
    requires
        0 <= r,
        0 <= m,
        r + m <= bytes.len(),
        carved_window(f, bytes.subrange(r, r + m), base + r),
    ensures
        carved_window(f, bytes, base),
{
    let sub = bytes.subrange(r, r + m);
    let (j, l) = choose|j: int, l: int|
        0 <= j && 0 <= l && j + l <= sub.len() && f.offset == base + r + j && #[trigger] carve_hit(
            sub.subrange(j, j + l),
        ) == Some((f.file_type, f.size as int)) && f.is_validated;
    assert(sub.subrange(j, j + l) =~= bytes.subrange(r + j, r + j + l));
    assert(carve_hit(bytes.subrange(r + j, r + j + l)) == Some((f.file_type, f.size as int)));
}

/// Whether some file of `v` has offset `o`.
fn has_offset(v: &Vec<CarvedFile>, o: u64) -> (r: bool)
    ensures
        r == exists|k: int| 0 <= k < v@.len() && #[trigger] v@[k].offset == o,
{
    let mut i: usize = 0;
    while i < v.len()
        invariant
            i <= v@.len(),
            forall|k: int| 0 <= k < i ==> v@[k].offset != o,
        decreases v@.len() - i,
    {
        if v[i].offset == o {
            assert(v@[i as int].offset == o);
            return true;
        }
        i += 1;
    }
    false
}

/// The files of `v` ordered by offset.
pub fn sort_by_offset(v: Vec<CarvedFile>) -> (r: Vec<CarvedFile>)
    requires
        distinct_offsets(v@),
    ensures
        r@.len() == v@.len(),
        sorted_by_offset(r@),
        forall|x: CarvedFile| r@.contains(x) <==> v@.contains(x),
{
    let mut out: Vec<CarvedFile> = Vec::new();
    let mut i: usize = 0;
    while i < v.len()
        invariant
            i <= v@.len(),
            distinct_offsets(v@),
            out@.len() == i,
            sorted_by_offset(out@),
            forall|x: CarvedFile| out@.contains(x) <==> v@.take(i as int).contains(x),
        decreases v@.len() - i,
    {
        let x = v[i];
        let mut j = out.len();
        while j > 0 && out[j - 1].offset > x.offset
            invariant
                j <= out@.len(),
                forall|k: int| j <= k < out@.len() ==> #[trigger] out@[k].offset > x.offset,
            decreases j,
        {
            j -= 1;
        }
        proof {
            assert forall|k: int| 0 <= k < out@.len() implies #[trigger] out@[k].offset != x.offset by {
                assert(out@.contains(out@[k]));
                assert(v@.take(i as int).contains(out@[k]));
                let m = choose|m: int| 0 <= m < i && #[trigger] v@.take(i as int)[m] == out@[k];
                assert(v@[m] == out@[k]);
                assert(v@[m].offset != v@[i as int].offset);
            }
            if j > 0 {
                assert(out@[j - 1].offset < x.offset);
                assert forall|k: int| 0 <= k < j implies #[trigger] out@[k].offset < x.offset by {
                    if k < j - 1 {
                        assert(out@[k].offset < out@[j - 1].offset);
                    }
                }
            }
        }
        let ghost before = out@;
        out.insert(j, x);
        proof {
            assert(out@ == before.insert(j as int, x));
            assert forall|a: int, b: int| 0 <= a < b < out@.len() implies #[trigger] out@[a].offset
                < #[trigger] out@[b].offset by {
                if a < j && b < j {
                    assert(out@[a] == before[a] && out@[b] == before[b]);
                } else if a < j && b == j {
                    assert(out@[a] == before[a]);
                } else if a < j {
                    assert(out@[a] == before[a] && out@[b] == before[b - 1]);
                    assert(before[j as int].offset > x.offset || j == before.len());
                } else if a == j {
                    assert(out@[b] == before[b - 1]);
                } else {
                    assert(out@[a] == before[a - 1] && out@[b] == before[b - 1]);
                }
            }
            assert forall|y: CarvedFile| out@.contains(y) <==> v@.take(i + 1).contains(y) by {
                if out@.contains(y) {
                    let k = choose|k: int| 0 <= k < out@.len() && #[trigger] out@[k] == y;
                    if k < j {
                        assert(before[k] == y);
                        assert(before.contains(y));
                        let m = choose|m: int| 0 <= m < i && #[trigger] v@.take(i as int)[m] == y;
                        assert(v@.take(i + 1)[m] == y);
                    } else if k == j {
                        assert(v@.take(i + 1)[i as int] == y);
                    } else {
                        assert(before[k - 1] == y);
                        assert(before.contains(y));
                        let m = choose|m: int| 0 <= m < i && #[trigger] v@.take(i as int)[m] == y;
                        assert(v@.take(i + 1)[m] == y);
                    }
                }
                if v@.take(i + 1).contains(y) {
                    let m = choose|m: int| 0 <= m < i + 1 && #[trigger] v@.take(i + 1)[m] == y;
                    if m < i {
                        assert(v@.take(i as int)[m] == y);
                        assert(before.contains(y));
                        let k = choose|k: int| 0 <= k < before.len() && #[trigger] before[k] == y;
                        if k < j {
                            assert(out@[k] == y);
                        } else {
                            assert(out@[k + 1] == y);
                        }
                    } else {
                        assert(out@[j as int] == y);
                    }
                }
            }
        }
        i += 1;
    }
    proof {
        assert(v@.take(v@.len() as int) =~= v@);
    }
    out
}

/// The name of the file a carved file is saved as: its offset in at least twelve hexadecimal
/// digits and its type's extension.
pub open spec fn carved_name(f: CarvedFile) -> Seq<char> {
    "carved_0x"@ + hex_padded(f.offset as nat, 12) + "."@ + crate::signatures::extension_of(f.file_type)
}

/// Builds the name a carved file is saved as.
pub fn carved_file_name(f: &CarvedFile) -> (r: String)
    ensures
        r@ == carved_name(*f),
{
    let mut s = String::from_str("carved_0x");
    proof {
        reveal_strlit("carved_0x");
        reveal_strlit(".");
    }
    crate::text::push_hex_padded(&mut s, f.offset, 12);
    push_str(&mut s, ".");
    push_str(&mut s, f.file_type.extension());
    s
}

/// Where the bytes of `f` lie in a chunk of `chunk_len` bytes read from `chunk_offset`, when
/// the whole file is in it.
pub fn carved_range_in_chunk(f: &CarvedFile, chunk_offset: u64, chunk_len: usize) -> (r: Option<(usize, usize)>)
    ensures
        r matches Some((a, b)) ==> a == f.offset - chunk_offset && b == a + f.size && b <= chunk_len,
        r is None <==> !(chunk_offset <= f.offset && f.offset - chunk_offset + f.size <= chunk_len),
{
    if f.offset < chunk_offset {
        return None;
    }
    let rel = f.offset - chunk_offset;
    if rel > chunk_len as u64 {
        return None;
    }
    let rel = rel as usize;
    if f.size <= chunk_len - rel {
        Some((rel, rel + f.size))
    } else {
        None
    }
}

/// The span of device bytes read at a time by the streaming scan.
pub const STEP_CHUNK: u64 = 8388608;

/// The span of a chunk within which one pass looks for headers.
pub const SUB_CHUNK: usize = 2097152;

/// The most bytes read past a span so that files starting in it can be validated.
pub const MAX_OVERLAP: usize = 4194304;

/// Whether some file of `s` has offset `o`.
pub open spec fn has_file_at(s: Seq<CarvedFile>, o: u64) -> bool {
    exists|k: int| 0 <= k < s.len() && #[trigger] s[k].offset == o
}

/// `all` followed by the files of `w` whose offsets it does not hold yet, in the order of `w`,
/// each offset once (the first file found at it).
pub open spec fn merge_into(all: Seq<CarvedFile>, w: Seq<CarvedFile>) -> Seq<CarvedFile>
    decreases w.len(),
{
    if w.len() == 0 {
        all
    } else {
        let p = merge_into(all, w.drop_last());
        if has_file_at(p, w.last().offset) {
            p
        } else {
            p.push(w.last())
        }
    }
}

/// Merging a concatenation merges its parts in turn.
pub proof fn lemma_merge_concat(all: Seq<CarvedFile>, a: Seq<CarvedFile>, b: Seq<CarvedFile>)
    ensures
        merge_into(all, a + b) == merge_into(merge_into(all, a), b),
    decreases b.len(),
{
    if b.len() == 0 {
        assert(a + b =~= a);
    } else {
        lemma_merge_concat(all, a, b.drop_last());
        assert((a + b).drop_last() =~= a + b.drop_last());
        assert((a + b).last() == b.last());
    }
}

/// How many bytes past a span a scanner reads so that files starting in it can be validated.
pub open spec fn overlap_of(s: CarvingScanner) -> int {
    if s.max_file_size < MAX_OVERLAP {
        s.max_file_size as int
    } else {
        MAX_OVERLAP as int
    }
}

/// The files found in a chunk whose first byte lies at `base`, span by span from `rel`: in
/// each 2 MiB span, headers are looked for at every `step`-th position, with up to `overlap`
/// bytes after the span available to validate a file.
pub open spec fn spans_walk(chunk: Seq<u8>, rel: int, base: int, overlap: int, step: int) -> Seq<CarvedFile>
    decreases chunk.len() - rel,
{
    if rel < 0 || rel >= chunk.len() {
        Seq::empty()
    } else {
        let rest = chunk.len() - rel;
        let slice_len = if rest < SUB_CHUNK + overlap {
            rest
        } else {
            SUB_CHUNK + overlap
        };
        let lim = if slice_len < SUB_CHUNK {
            slice_len
        } else {
            SUB_CHUNK as int
        };
        carve_walk(chunk.subrange(rel, rel + slice_len), 0, lim, step, base + rel) + if rest
            <= SUB_CHUNK {
            Seq::empty()
        } else {
            spans_walk(chunk, rel + SUB_CHUNK, base, overlap, step)
        }
    }
}

/// The length of the chunk read at `cur` when scanning up to `end`.
pub open spec fn chunk_len_at(cur: int, end: int, overlap: int) -> int {
    if end - cur < STEP_CHUNK + overlap {
        end - cur
    } else {
        STEP_CHUNK + overlap
    }
}

/// The files found by a scan of `dev` from `start` to `end` in chunks 8 MiB apart, in chunk
/// order, when the reads of the chunks succeeded as `ok` says.
pub open spec fn stream_walk(dev: Seq<u8>, start: int, end: int, overlap: int, step: int, ok: Seq<bool>) -> Seq<
    CarvedFile,
>
    decreases ok.len(),
{
    if ok.len() == 0 {
        Seq::empty()
    } else {
        let cur = start + (ok.len() - 1) * STEP_CHUNK;
        let len = chunk_len_at(cur, end, overlap);
        stream_walk(dev, start, end, overlap, step, ok.drop_last()) + if ok.last() && cur < end && cur
            + len <= dev.len() {
            spans_walk(dev.subrange(cur, cur + len), 0, cur, overlap, step)
        } else {
            Seq::empty()
        }
    }
}

/// Where a scan of `scan_length` bytes from `start` ends on a medium of `size` bytes.
pub open spec fn scan_end(start: u64, scan_length: u64, size: u64) -> int {
    let l = if start + scan_length > u64::MAX {
        u64::MAX as int
    } else {
        start + scan_length
    };
    if l < size {
        l
    } else {
        size as int
    }
}

/// `v` is what a scan returns when its chunk reads succeeded as `ok` says: the first file
/// found at each offset, ordered by offset.
pub open spec fn stream_outcome(
    v: Seq<CarvedFile>,
    dev: Seq<u8>,
    start: int,
    end: int,
    overlap: int,
    step: int,
    ok: Seq<bool>,
) -> bool {
    &&& sorted_by_offset(v)
    &&& forall|x: CarvedFile|
        v.contains(x) <==> merge_into(Seq::empty(), stream_walk(dev, start, end, overlap, step, ok)).contains(x)
}

/// Adds the files of `found` whose offsets are new to `all`, and to `fresh`.
fn merge_new(found: &Vec<CarvedFile>, all: &mut Vec<CarvedFile>, fresh: &mut Vec<CarvedFile>)
    requires
        distinct_offsets(old(all)@),
    ensures
        distinct_offsets(final(all)@),
        final(all)@.len() >= old(all)@.len(),
        final(all)@.take(old(all)@.len() as int) == old(all)@,
        forall|k: int|
            old(all)@.len() <= k < final(all)@.len() ==> found@.contains(#[trigger] final(all)@[k]),
        final(fresh)@ == old(fresh)@ + final(all)@.skip(old(all)@.len() as int),
        final(all)@ == merge_into(old(all)@, found@),
{
    let ghost all0 = all@;
    let ghost fresh0 = fresh@;
    let mut i: usize = 0;
    proof {
        assert(found@.take(0) =~= Seq::<CarvedFile>::empty());
    }
    while i < found.len()
        invariant
            i <= found@.len(),
            all@ == merge_into(all0, found@.take(i as int)),
            distinct_offsets(all@),
            all@.len() >= all0.len(),
            all@.take(all0.len() as int) == all0,
            forall|k: int| all0.len() <= k < all@.len() ==> found@.contains(#[trigger] all@[k]),
            fresh@ == fresh0 + all@.skip(all0.len() as int),
        decreases found@.len() - i,
    {
        let item = found[i];
        proof {
            assert(found@.take(i + 1).drop_last() =~= found@.take(i as int));
            assert(found@.take(i + 1).last() == item);
        }
        if !has_offset(all, item.offset) {
            let ghost before = all@;
            all.push(item);
            fresh.push(item);
            proof {
                assert forall|a: int, b: int| 0 <= a < b < all@.len() implies #[trigger] all@[a].offset
                    != #[trigger] all@[b].offset by {
                    if b == before.len() {
                        assert(all@[a] == before[a]);
                    } else {
                        assert(all@[a] == before[a] && all@[b] == before[b]);
                    }
                }
                assert(all@.take(all0.len() as int) =~= before.take(all0.len() as int));
                assert forall|k: int| all0.len() <= k < all@.len() implies found@.contains(#[trigger] all@[k]) by {
                    if k < before.len() {
                        assert(all@[k] == before[k]);
                    } else {
                        assert(found@[i as int] == item);
                    }
                }
                assert(all@.skip(all0.len() as int) =~= before.skip(all0.len() as int).push(item));
            }
        }
        i += 1;
    }
    proof {
        assert(found@.take(found@.len() as int) =~= found@);
    }
}

/// Each file found span by span in a chunk was recognized in it.
proof fn lemma_spans_carved(chunk: Seq<u8>, rel: int, base: int, overlap: int, step: int)
    requires
        0 <= base,
        base + chunk.len() <= u64::MAX,
        chunk.len() <= usize::MAX,
        0 <= overlap,
    ensures
        forall|k: int|
            0 <= k < spans_walk(chunk, rel, base, overlap, step).len() ==> carved_window(
                #[trigger] spans_walk(chunk, rel, base, overlap, step)[k],
                chunk,
                base,
            ),
    decreases chunk.len() - rel,
{
    if !(rel < 0 || rel >= chunk.len()) {
        let rest = chunk.len() - rel;
        let slice_len = if rest < SUB_CHUNK + overlap {
            rest
        } else {
            SUB_CHUNK + overlap
        };
        let lim = if slice_len < SUB_CHUNK {
            slice_len
        } else {
            SUB_CHUNK as int
        };
        let sub = chunk.subrange(rel, rel + slice_len);
        lemma_walk_carved(sub, 0, lim, step, base + rel);
        let here = carve_walk(sub, 0, lim, step, base + rel);
        let tail = if rest <= SUB_CHUNK {
            Seq::<CarvedFile>::empty()
        } else {
            spans_walk(chunk, rel + SUB_CHUNK, base, overlap, step)
        };
        if rest > SUB_CHUNK {
            lemma_spans_carved(chunk, rel + SUB_CHUNK, base, overlap, step);
        }
        let w = spans_walk(chunk, rel, base, overlap, step);
        assert(w == here + tail);
        assert forall|k: int| 0 <= k < w.len() implies carved_window(#[trigger] w[k], chunk, base) by {
            if k < here.len() {
                assert(w[k] == here[k]);
                lemma_in_window(here[k], sub, base + rel);
                lemma_window_sub(here[k], chunk, rel, slice_len, base);
            } else {
                assert(w[k] == tail[k - here.len()]);
            }
        }
    }
}

impl CarvingScanner {
    /// The files whose headers lie in a chunk read from offset `chunk_offset`, span by span:
    /// each 2 MiB span is scanned at every aligned position, with up to 4 MiB more (at most the
    /// scanner's largest file) available to validate a file found in it.
    pub fn carve_chunk(&self, chunk: &[u8], chunk_offset: u64) -> (r: Vec<CarvedFile>)
        requires
            chunk_offset + chunk@.len() <= u64::MAX,
        ensures
            r@ == spans_walk(chunk@, 0, chunk_offset as int, overlap_of(*self), step_of(self.alignment)),
    {
        let ghost ov = overlap_of(*self);
        let ghost st = step_of(self.alignment);
        let registry = signature_registry();
        let step = self.alignment.step_bytes();
        let overlap = if self.max_file_size < MAX_OVERLAP {
            self.max_file_size
        } else {
            MAX_OVERLAP
        };
        let read_len = chunk.len();
        let mut r: Vec<CarvedFile> = Vec::new();
        let mut rel: usize = 0;
        while rel < read_len
            invariant
                read_len == chunk@.len(),
                chunk_offset + chunk@.len() <= u64::MAX,
                overlap as int == ov,
                overlap <= MAX_OVERLAP,
                step as int == st,
                step > 0,
                rel <= read_len,
                registry@.len() == SIGNATURE_COUNT,
                forall|k: int| 0 <= k < SIGNATURE_COUNT ==> is_registry_entry(#[trigger] registry@[k], k),
                spans_walk(chunk@, 0, chunk_offset as int, ov, st) == r@ + spans_walk(
                    chunk@,
                    rel as int,
                    chunk_offset as int,
                    ov,
                    st,
                ),
            decreases read_len - rel,
        {
            let rest = read_len - rel;
            let slice_len = if rest < SUB_CHUNK + overlap {
                rest
            } else {
                SUB_CHUNK + overlap
            };
            let sub = &chunk[rel..rel + slice_len];
            let lim = if slice_len < SUB_CHUNK {
                slice_len
            } else {
                SUB_CHUNK
            };
            let base = chunk_offset + rel as u64;
            let mut found = scan_region(sub, lim, base, step, &registry);
            let ghost before = r@;
            let ghost here = found@;
            r.append(&mut found);
            proof {
                let tail = if rest <= SUB_CHUNK {
                    Seq::<CarvedFile>::empty()
                } else {
                    spans_walk(chunk@, rel + SUB_CHUNK, chunk_offset as int, ov, st)
                };
                assert(sub@ == chunk@.subrange(rel as int, rel + slice_len));
                assert(spans_walk(chunk@, rel as int, chunk_offset as int, ov, st) == here + tail);
                assert(before + (here + tail) =~= (before + here) + tail);
                if rest <= SUB_CHUNK {
                    assert(spans_walk(chunk@, read_len as int, chunk_offset as int, ov, st) =~= Seq::<CarvedFile>::empty());
                    assert((before + here) + tail =~= r@ + Seq::<CarvedFile>::empty());
                }
            }
            if rest <= SUB_CHUNK {
                rel = read_len;
            } else {
                rel = rel + SUB_CHUNK;
            }
        }
        proof {
            assert(r@ + Seq::<CarvedFile>::empty() =~= r@);
        }
        r
    }

    pub fn default() -> (r: Self)
        ensures
            r.alignment == CarveAlignment::Sector512,
            r.chunk_size == 16777216,
            r.max_file_size == 104857600,
    {
        CarvingScanner { alignment: CarveAlignment::Sector512, chunk_size: 16777216, max_file_size: 104857600 }
    }

    pub fn new(alignment: CarveAlignment) -> (r: Self)
        ensures
            r.alignment == alignment,
            r.chunk_size == 16777216,
            r.max_file_size == 104857600,
    {
        CarvingScanner { alignment, chunk_size: 16777216, max_file_size: 104857600 }
    }

    /// Carves files out of an in-memory buffer whose first byte lies at `base_offset`: at
    /// each aligned position, the first signature whose magic matches and whose validator
    /// accepts gives a file, and the scan resumes at the first aligned position after the
    /// steps the file overlaps.
    pub fn scan_buffer(&self, base_offset: u64, buffer: &[u8]) -> (r: Vec<CarvedFile>)
        requires
            base_offset + buffer@.len() <= u64::MAX,
        ensures
            r@ == carve_walk(
                buffer@,
                0,
                buffer@.len() as int,
                step_of(self.alignment),
                base_offset as int,
            ),
    {
        let registry = signature_registry();
        scan_region(buffer, buffer.len(), base_offset, self.alignment.step_bytes(), &registry)
    }

    /// Scans `scan_length` bytes of the device from `start_offset` (not past its reported size)
    /// in 8 MiB chunks read with up to 4 MiB more, and returns the files found, ordered by
    /// offset, each offset once. After each chunk `progress_cb` gets the bytes scanned so far,
    /// the files found so far, those new in this chunk, and the chunk with its offset.
    pub fn scan_device_streaming<
        D: BlockDevice + ?Sized,
        F: FnMut(u64, &Vec<CarvedFile>, &Vec<CarvedFile>, &Vec<u8>, u64),
    >(&self, device: &mut D, start_offset: u64, scan_length: u64, progress_cb: F) -> (r: Result<
        Vec<CarvedFile>,
    >)
        requires
            forall|a: u64, b: &Vec<CarvedFile>, c: &Vec<CarvedFile>, d: &Vec<u8>, e: u64|
                call_requires(progress_cb, (a, b, c, d, e)),
        ensures
            final(device).data() == old(device).data(),
            r is Ok,
            r matches Ok(v) ==> {
                &&& sorted_by_offset(v@)
                &&& forall|k: int| 0 <= k < v@.len() ==> carved_on(#[trigger] v@[k], old(device).data())
                &&& exists|ok: Seq<bool>|
                    #[trigger] stream_outcome(
                        v@,
                        old(device).data(),
                        start_offset as int,
                        scan_end(start_offset, scan_length, old(device).reported_size()),
                        overlap_of(*self),
                        step_of(self.alignment),
                        ok,
                    )
            },
    {
        let ghost dev = device.data();
        let ghost ov = overlap_of(*self);
        let ghost st = step_of(self.alignment);
        let ghost mut ok: Seq<bool> = Seq::empty();
        let mut progress_cb = progress_cb;
        let total_device_size = device.total_size();
        let limit = start_offset.saturating_add(scan_length);
        let end_offset = if limit < total_device_size {
            limit
        } else {
            total_device_size
        };
        let overlap = if self.max_file_size < MAX_OVERLAP {
            self.max_file_size
        } else {
            MAX_OVERLAP
        };
        let registry = signature_registry();
        let mut all_carved: Vec<CarvedFile> = Vec::new();
        let mut current_offset = start_offset;
        let mut done = false;
        while !done && current_offset < end_offset
            invariant
                dev == device.data(),
                dev == old(device).data(),
                end_offset <= u64::MAX,
                overlap <= MAX_OVERLAP,
                registry@.len() == SIGNATURE_COUNT,
                forall|k: int| 0 <= k < SIGNATURE_COUNT ==> is_registry_entry(#[trigger] registry@[k], k),
                forall|a: u64, b: &Vec<CarvedFile>, c: &Vec<CarvedFile>, d: &Vec<u8>, e: u64|
                    call_requires(progress_cb, (a, b, c, d, e)),
                distinct_offsets(all_carved@),
                forall|k: int| 0 <= k < all_carved@.len() ==> carved_on(#[trigger] all_carved@[k], dev),
                end_offset as int == scan_end(start_offset, scan_length, old(device).reported_size()),
                overlap as int == ov,
                ov == overlap_of(*self),
                st == step_of(self.alignment),
                all_carved@ == merge_into(
                    Seq::empty(),
                    stream_walk(dev, start_offset as int, end_offset as int, ov, st, ok),
                ),
                current_offset < end_offset ==> current_offset == start_offset + ok.len() * STEP_CHUNK,
            decreases (if current_offset < end_offset { end_offset - current_offset } else { 0 }) + (if done {
                0int
            } else {
                1int
            }),
        {
            let remaining = end_offset - current_offset;
            let window = STEP_CHUNK + overlap as u64;
            let read_len: usize = if remaining < window {
                remaining as usize
            } else {
                window as usize
            };
            let mut chunk_buf: Vec<u8> = vec![0u8; read_len];
            let mut fresh: Vec<CarvedFile> = Vec::new();
            let ghost merged0 = all_carved@;
            let read_ok = device.read_exact_at(current_offset, chunk_buf.as_mut_slice()).is_ok();
            let ghost spans = spans_walk(chunk_buf@, 0, current_offset as int, ov, st);
            if read_ok {
                let found = self.carve_chunk(chunk_buf.as_slice(), current_offset);
                proof {
                    assert(found@ == spans_walk(chunk_buf@, 0, current_offset as int, overlap_of(*self), step_of(self.alignment)));
                    assert(ov == overlap_of(*self));
                    assert(found@ == spans);
                    lemma_spans_carved(chunk_buf@, 0, current_offset as int, ov, st);
                }
                let ghost before = all_carved@;
                merge_new(&found, &mut all_carved, &mut fresh);
                proof {
                    assert forall|k: int| 0 <= k < all_carved@.len() implies carved_on(#[trigger] all_carved@[k], dev) by {
                        if k < before.len() {
                            assert(all_carved@.take(before.len() as int)[k] == before[k]);
                        } else {
                            let m = choose|m: int| 0 <= m < found@.len() && #[trigger] found@[m] == all_carved@[k];
                            assert(carved_window(found@[m], chunk_buf@, current_offset as int));
                            assert(chunk_buf@ == dev.subrange(current_offset as int, current_offset + read_len));
                            lemma_window_sub(
                                all_carved@[k],
                                dev,
                                current_offset as int,
                                read_len as int,
                                0,
                            );
                        }
                    }
                }
            }
            proof {
                let ok2 = ok.push(read_ok);
                let sw = stream_walk(dev, start_offset as int, end_offset as int, ov, st, ok);
                assert(ok2.drop_last() =~= ok);
                assert(ok2.last() == read_ok);
                assert(chunk_len_at(current_offset as int, end_offset as int, ov) == read_len);
                if read_ok {
                    assert(chunk_buf@ == dev.subrange(current_offset as int, current_offset + read_len));
                    assert(current_offset + read_len <= dev.len());
                    assert(start_offset + (ok2.len() - 1) * STEP_CHUNK == current_offset);
                    assert(stream_walk(dev, start_offset as int, end_offset as int, ov, st, ok2) == sw + spans);
                    lemma_merge_concat(Seq::empty(), sw, spans);
                    assert(all_carved@ == merge_into(merged0, spans));
                } else {
                    assert(all_carved@ == merged0);
                    assert(stream_walk(dev, start_offset as int, end_offset as int, ov, st, ok2) =~= sw);
                }
                ok = ok2;
            }
            let chunk_offset = current_offset;
            let next = current_offset.saturating_add(STEP_CHUNK);
            let reached = if next < end_offset {
                next
            } else {
                end_offset
            };
            let scanned_so_far = reached.saturating_sub(start_offset);
            progress_cb(scanned_so_far, &all_carved, &fresh, &chunk_buf, chunk_offset);
            if next == current_offset {
                done = true;
            }
            current_offset = next;
        }
        let ghost input = all_carved@;
        let sorted = sort_by_offset(all_carved);
        proof {
            assert forall|k: int| 0 <= k < sorted@.len() implies carved_on(#[trigger] sorted@[k], old(device).data()) by {
                assert(sorted@.contains(sorted@[k]));
                assert(input.contains(sorted@[k]));
                let m = choose|m: int| 0 <= m < input.len() && #[trigger] input[m] == sorted@[k];
                assert(carved_on(input[m], dev));
            }
            assert(stream_outcome(
                sorted@,
                old(device).data(),
                start_offset as int,
                scan_end(start_offset, scan_length, old(device).reported_size()),
                overlap_of(*self),
                step_of(self.alignment),
                ok,
            ));
        }
        Ok(sorted)
    }

    /// Reads the bytes of a carved file from the device.
    pub fn read_carved<D: BlockDevice + ?Sized>(&self, device: &mut D, carved: &CarvedFile) -> (r: Result<Vec<u8>>)
        ensures
            final(device).data() == old(device).data(),
            r matches Ok(b) ==> carved.offset + carved.size <= old(device).data().len() && b@
                == bytes_from(old(device).data(), carved.offset as int, carved.size as int),
            r matches Err(e) ==> e is Io,
    {
        let mut buffer: Vec<u8> = vec![0u8; carved.size];
        device.read_exact_at(carved.offset, buffer.as_mut_slice())?;
        Ok(buffer)
    }

    /// Scans the device like `scan_device_streaming`; `progress_cb` gets the bytes scanned
    /// so far and the number of files found.
    pub fn scan_device<D: BlockDevice + ?Sized, F: FnMut(u64, usize)>(
        &self,
        device: &mut D,
        start_offset: u64,
        scan_length: u64,
        progress_cb: F,
    ) -> (r: Result<Vec<CarvedFile>>)
        requires
            forall|a: u64, b: usize| call_requires(progress_cb, (a, b)),
        ensures
            final(device).data() == old(device).data(),
            r is Ok,
            r matches Ok(v) ==> {
                &&& sorted_by_offset(v@)
                &&& forall|k: int| 0 <= k < v@.len() ==> carved_on(#[trigger] v@[k], old(device).data())
                &&& exists|ok: Seq<bool>|
                    #[trigger] stream_outcome(
                        v@,
                        old(device).data(),
                        start_offset as int,
                        scan_end(start_offset, scan_length, old(device).reported_size()),
                        overlap_of(*self),
                        step_of(self.alignment),
                        ok,
                    )
            },
    {
        let ghost dev = device.data();
        let ghost ov = overlap_of(*self);
        let ghost st = step_of(self.alignment);
        let ghost mut ok: Seq<bool> = Seq::empty();
        let mut progress_cb = progress_cb;
        let total_device_size = device.total_size();
        let limit = start_offset.saturating_add(scan_length);
        let end_offset = if limit < total_device_size {
            limit
        } else {
            total_device_size
        };
        let overlap = if self.max_file_size < MAX_OVERLAP {
            self.max_file_size
        } else {
            MAX_OVERLAP
        };
        let registry = signature_registry();
        let mut all_carved: Vec<CarvedFile> = Vec::new();
        let mut current_offset = start_offset;
        let mut done = false;
        while !done && current_offset < end_offset
            invariant
                dev == device.data(),
                dev == old(device).data(),
                overlap <= MAX_OVERLAP,
                registry@.len() == SIGNATURE_COUNT,
                forall|k: int| 0 <= k < SIGNATURE_COUNT ==> is_registry_entry(#[trigger] registry@[k], k),
                forall|a: u64, b: usize| call_requires(progress_cb, (a, b)),
                distinct_offsets(all_carved@),
                forall|k: int| 0 <= k < all_carved@.len() ==> carved_on(#[trigger] all_carved@[k], dev),
                end_offset as int == scan_end(start_offset, scan_length, old(device).reported_size()),
                overlap as int == ov,
                ov == overlap_of(*self),
                st == step_of(self.alignment),
                all_carved@ == merge_into(
                    Seq::empty(),
                    stream_walk(dev, start_offset as int, end_offset as int, ov, st, ok),
                ),
                current_offset < end_offset ==> current_offset == start_offset + ok.len() * STEP_CHUNK,
            decreases (if current_offset < end_offset { end_offset - current_offset } else { 0 }) + (if done {
                0int
            } else {
                1int
            }),
        {
            let remaining = end_offset - current_offset;
            let window = STEP_CHUNK + overlap as u64;
            let read_len: usize = if remaining < window {
                remaining as usize
            } else {
                window as usize
            };
            let mut chunk_buf: Vec<u8> = vec![0u8; read_len];
            let mut fresh: Vec<CarvedFile> = Vec::new();
            let ghost merged0 = all_carved@;
            let read_ok = device.read_exact_at(current_offset, chunk_buf.as_mut_slice()).is_ok();
            let ghost spans = spans_walk(chunk_buf@, 0, current_offset as int, ov, st);
            if read_ok {
                let found = self.carve_chunk(chunk_buf.as_slice(), current_offset);
                proof {
                    assert(found@ == spans_walk(chunk_buf@, 0, current_offset as int, overlap_of(*self), step_of(self.alignment)));
                    assert(ov == overlap_of(*self));
                    assert(found@ == spans);
                    lemma_spans_carved(chunk_buf@, 0, current_offset as int, ov, st);
                }
                let ghost before = all_carved@;
                merge_new(&found, &mut all_carved, &mut fresh);
                proof {
                    assert forall|k: int| 0 <= k < all_carved@.len() implies carved_on(#[trigger] all_carved@[k], dev) by {
                        if k < before.len() {
                            assert(all_carved@.take(before.len() as int)[k] == before[k]);
                        } else {
                            let m = choose|m: int| 0 <= m < found@.len() && #[trigger] found@[m] == all_carved@[k];
                            assert(carved_window(found@[m], chunk_buf@, current_offset as int));
                            assert(chunk_buf@ == dev.subrange(current_offset as int, current_offset + read_len));
                            lemma_window_sub(
                                all_carved@[k],
                                dev,
                                current_offset as int,
                                read_len as int,
                                0,
                            );
                        }
                    }
                }
            }
            proof {
                let ok2 = ok.push(read_ok);
                let sw = stream_walk(dev, start_offset as int, end_offset as int, ov, st, ok);
                assert(ok2.drop_last() =~= ok);
                assert(ok2.last() == read_ok);
                assert(chunk_len_at(current_offset as int, end_offset as int, ov) == read_len);
                if read_ok {
                    assert(chunk_buf@ == dev.subrange(current_offset as int, current_offset + read_len));
                    assert(current_offset + read_len <= dev.len());
                    assert(start_offset + (ok2.len() - 1) * STEP_CHUNK == current_offset);
                    assert(stream_walk(dev, start_offset as int, end_offset as int, ov, st, ok2) == sw + spans);
                    lemma_merge_concat(Seq::empty(), sw, spans);
                    assert(all_carved@ == merge_into(merged0, spans));
                } else {
                    assert(all_carved@ == merged0);
                    assert(stream_walk(dev, start_offset as int, end_offset as int, ov, st, ok2) =~= sw);
                }
                ok = ok2;
            }
            let next = current_offset.saturating_add(STEP_CHUNK);
            let reached = if next < end_offset {
                next
            } else {
                end_offset
            };
            progress_cb(reached.saturating_sub(start_offset), all_carved.len());
            if next == current_offset {
                done = true;
            }
            current_offset = next;
        }
        let ghost input = all_carved@;
        let sorted = sort_by_offset(all_carved);
        proof {
            assert forall|k: int| 0 <= k < sorted@.len() implies carved_on(#[trigger] sorted@[k], old(device).data()) by {
                assert(sorted@.contains(sorted@[k]));
                assert(input.contains(sorted@[k]));
                let m = choose|m: int| 0 <= m < input.len() && #[trigger] input[m] == sorted@[k];
                assert(carved_on(input[m], dev));
            }
            assert(stream_outcome(
                sorted@,
                old(device).data(),
                start_offset as int,
                scan_end(start_offset, scan_length, old(device).reported_size()),
                overlap_of(*self),
                step_of(self.alignment),
                ok,
            ));
        }
        Ok(sorted)
    }
}

} // verus!
