//! File signatures the carver looks for, and the validators that find where a file ends.

use vstd::prelude::*;
use crate::endian::{
    be32, be64, be_value, bytes_at, get_be32, get_be64, get_le16, get_le32, le16, le32, lemma_byte_order,
    matches_at,
};

verus! {

/// The kinds of file the carver recognizes.
#[derive(Debug, Clone, Copy, PartialEq, Eq, Hash, Structural)]
pub enum FileType {
    Jpeg,
    Png,
    Pdf,
    Zip,
    Mp4,
    Mkv,
    Avi,
    Gif,
}

/// The file name extension of a file type.
pub open spec fn extension_of(t: FileType) -> Seq<char> {
    match t {
        FileType::Jpeg => "jpg"@,
        FileType::Png => "png"@,
        FileType::Pdf => "pdf"@,
        FileType::Zip => "zip"@,
        FileType::Mp4 => "mp4"@,
        FileType::Mkv => "mkv"@,
        FileType::Avi => "avi"@,
        FileType::Gif => "gif"@,
    }
}

/// The MIME type of a file type.
pub open spec fn mime_of(t: FileType) -> Seq<char> {
    match t {
        FileType::Jpeg => "image/jpeg"@,
        FileType::Png => "image/png"@,
        FileType::Pdf => "application/pdf"@,
        FileType::Zip => "application/zip"@,
        FileType::Mp4 => "video/mp4"@,
        FileType::Mkv => "video/x-matroska"@,
        FileType::Avi => "video/x-msvideo"@,
        FileType::Gif => "image/gif"@,
    }
}

/// The display name of a file type: its extension in capitals.
pub open spec fn display_of(t: FileType) -> Seq<char> {
    match t {
        FileType::Jpeg => "JPG"@,
        FileType::Png => "PNG"@,
        FileType::Pdf => "PDF"@,
        FileType::Zip => "ZIP"@,
        FileType::Mp4 => "MP4"@,
        FileType::Mkv => "MKV"@,
        FileType::Avi => "AVI"@,
        FileType::Gif => "GIF"@,
    }
}

impl FileType {
    pub fn extension(&self) -> (r: &'static str)
        ensures
            r@ == extension_of(*self),
    {
        proof {
            reveal_strlit("jpg");
            reveal_strlit("png");
            reveal_strlit("pdf");
            reveal_strlit("zip");
            reveal_strlit("mp4");
            reveal_strlit("mkv");
            reveal_strlit("avi");
            reveal_strlit("gif");
        }
        match self {
            FileType::Jpeg => "jpg",
            FileType::Png => "png",
            FileType::Pdf => "pdf",
            FileType::Zip => "zip",
            FileType::Mp4 => "mp4",
            FileType::Mkv => "mkv",
            FileType::Avi => "avi",
            FileType::Gif => "gif",
        }
    }

    pub fn mime_type(&self) -> (r: &'static str)
        ensures
            r@ == mime_of(*self),
    {
        match self {
            FileType::Jpeg => "image/jpeg",
            FileType::Png => "image/png",
            FileType::Pdf => "application/pdf",
            FileType::Zip => "application/zip",
            FileType::Mp4 => "video/mp4",
            FileType::Mkv => "video/x-matroska",
            FileType::Avi => "video/x-msvideo",
            FileType::Gif => "image/gif",
        }
    }

    /// The name shown for the file type: its extension in capitals.
    pub fn to_string(&self) -> (r: String)
        ensures
            r@ == display_of(*self),
    {
        let s = match self {
            FileType::Jpeg => "JPG",
            FileType::Png => "PNG",
            FileType::Pdf => "PDF",
            FileType::Zip => "ZIP",
            FileType::Mp4 => "MP4",
            FileType::Mkv => "MKV",
            FileType::Avi => "AVI",
            FileType::Gif => "GIF",
        };
        String::from_str(s)
    }
}

/// A signature: the magic bytes of a file type, where they stand from the start of the
/// file, and how many bytes a validator may inspect.
#[derive(Debug, Clone)]
pub struct SignatureDef {
    pub file_type: FileType,
    pub header_magic: Vec<u8>,
    pub header_offset: usize,
    pub max_carve_size: u64,
}

/// The number of signatures in the registry.
pub const SIGNATURE_COUNT: usize = 8;

/// The `i`-th signature of the registry: type, magic, offset, carve limit.
pub open spec fn registry_entry(i: int) -> (FileType, Seq<u8>, int, int) {
    if i == 0 {
        (FileType::Jpeg, seq![0xFFu8, 0xD8, 0xFF], 0, 52428800)
    } else if i == 1 {
        (FileType::Png, seq![0x89u8, 0x50, 0x4E, 0x47, 0x0D, 0x0A, 0x1A, 0x0A], 0, 52428800)
    } else if i == 2 {
        (FileType::Pdf, seq![0x25u8, 0x50, 0x44, 0x46, 0x2D], 0, 104857600)
    } else if i == 3 {
        (FileType::Zip, seq![0x50u8, 0x4B, 0x03, 0x04], 0, 524288000)
    } else if i == 4 {
        (FileType::Mp4, seq![0x66u8, 0x74, 0x79, 0x70], 4, 5368709120)
    } else if i == 5 {
        (FileType::Mkv, seq![0x1Au8, 0x45, 0xDF, 0xA3], 0, 10737418240)
    } else if i == 6 {
        (FileType::Avi, seq![0x52u8, 0x49, 0x46, 0x46], 0, 5368709120)
    } else {
        (FileType::Gif, seq![0x47u8, 0x49, 0x46, 0x38], 0, 31457280)
    }
}

/// Whether `s` is the `i`-th signature of the registry.
pub open spec fn is_registry_entry(s: SignatureDef, i: int) -> bool {
    let e = registry_entry(i);
    &&& s.file_type == e.0
    &&& s.header_magic@ == e.1
    &&& s.header_offset == e.2
    &&& s.max_carve_size == e.3
}

/// The signatures the carver looks for, in the order it tries them.
pub fn signature_registry() -> (r: Vec<SignatureDef>)
    ensures
        r@.len() == SIGNATURE_COUNT,
        forall|i: int| 0 <= i < SIGNATURE_COUNT ==> is_registry_entry(#[trigger] r@[i], i),
{
    let mut r: Vec<SignatureDef> = Vec::new();
    r.push(SignatureDef { file_type: FileType::Jpeg, header_magic: vec![0xFFu8, 0xD8, 0xFF], header_offset: 0, max_carve_size: 52428800 });
    r.push(SignatureDef { file_type: FileType::Png, header_magic: vec![0x89u8, 0x50, 0x4E, 0x47, 0x0D, 0x0A, 0x1A, 0x0A], header_offset: 0, max_carve_size: 52428800 });
    r.push(SignatureDef { file_type: FileType::Pdf, header_magic: vec![0x25u8, 0x50, 0x44, 0x46, 0x2D], header_offset: 0, max_carve_size: 104857600 });
    r.push(SignatureDef { file_type: FileType::Zip, header_magic: vec![0x50u8, 0x4B, 0x03, 0x04], header_offset: 0, max_carve_size: 524288000 });
    r.push(SignatureDef { file_type: FileType::Mp4, header_magic: vec![0x66u8, 0x74, 0x79, 0x70], header_offset: 4, max_carve_size: 5368709120 });
    r.push(SignatureDef { file_type: FileType::Mkv, header_magic: vec![0x1Au8, 0x45, 0xDF, 0xA3], header_offset: 0, max_carve_size: 10737418240 });
    r.push(SignatureDef { file_type: FileType::Avi, header_magic: vec![0x52u8, 0x49, 0x46, 0x46], header_offset: 0, max_carve_size: 5368709120 });
    r.push(SignatureDef { file_type: FileType::Gif, header_magic: vec![0x47u8, 0x49, 0x46, 0x38], header_offset: 0, max_carve_size: 31457280 });
    proof {
        assert forall|i: int| 0 <= i < SIGNATURE_COUNT implies is_registry_entry(#[trigger] r@[i], i) by {
            assert(r@[i].header_magic@ =~= registry_entry(i).1);
        }
    }
    r
}

/// The most bytes the JPEG validator searches for the end of image marker.
pub const JPEG_SEARCH_LIMIT: usize = 52428800;

/// The JPEG end of image marker `FF D9` at `i`.
pub open spec fn jpeg_eoi(d: Seq<u8>, i: int) -> bool {
    d[i] == 0xFF && d[i + 1] == 0xD9
}

/// The end of the first end of image marker at or after `i` and before `lim`.
pub open spec fn jpeg_end_from(d: Seq<u8>, i: int, lim: int) -> Option<int>
    decreases lim - i,
{
    if i >= lim {
        None
    } else if jpeg_eoi(d, i) {
        Some(i + 2)
    } else {
        jpeg_end_from(d, i + 1, lim)
    }
}

/// Where the JPEG at the start of `d` ends: after the first end of image marker found from
/// offset 3, searched up to 50 MiB.
pub open spec fn jpeg_size(d: Seq<u8>) -> Option<int> {
    if d.len() < 4 || !bytes_at(d, 0, seq![0xFFu8, 0xD8, 0xFF]) {
        None
    } else {
        let lim = if d.len() - 1 < JPEG_SEARCH_LIMIT { d.len() - 1 } else { JPEG_SEARCH_LIMIT as int };
        jpeg_end_from(d, 3, lim)
    }
}

/// The PNG `IEND` chunk with its CRC.
pub open spec fn png_iend() -> Seq<u8> {
    seq![0x49u8, 0x45, 0x4E, 0x44, 0xAE, 0x42, 0x60, 0x82]
}

/// The first position at or after `i` where `pat` occurs in `d`.
pub open spec fn find_from(d: Seq<u8>, pat: Seq<u8>, i: int) -> Option<int>
    decreases d.len() - i,
{
    if i < 0 || i >= d.len() || i + pat.len() > d.len() {
        None
    } else if bytes_at(d, i, pat) {
        Some(i)
    } else {
        find_from(d, pat, i + 1)
    }
}

/// Where the PNG at the start of `d` ends: after the first `IEND` chunk.
pub open spec fn png_size(d: Seq<u8>) -> Option<int> {
    if d.len() < 8 || !bytes_at(d, 0, seq![0x89u8, 0x50, 0x4E, 0x47, 0x0D, 0x0A, 0x1A, 0x0A]) {
        None
    } else {
        match find_from(d, png_iend(), 0) {
            Some(p) => Some(p + 8),
            None => None,
        }
    }
}

/// `%%EOF`.
pub open spec fn pdf_eof() -> Seq<u8> {
    seq![0x25u8, 0x25, 0x45, 0x4F, 0x46]
}

/// The position after the carriage returns and line feeds that follow `e`.
pub open spec fn skip_newlines(d: Seq<u8>, e: int) -> int
    decreases d.len() - e,
{
    if 0 <= e < d.len() && (d[e] == 0x0D || d[e] == 0x0A) {
        skip_newlines(d, e + 1)
    } else {
        e
    }
}

/// Where the PDF at the start of `d` ends: after the first `%%EOF` in its last 4 KiB, or
/// failing that in the whole buffer, and the line breaks after it.
pub open spec fn pdf_size(d: Seq<u8>) -> Option<int> {
    if d.len() < 8 || !bytes_at(d, 0, seq![0x25u8, 0x50, 0x44, 0x46, 0x2D]) {
        None
    } else {
        let s = if d.len() > 4096 { d.len() - 4096 } else { 0 };
        match find_from(d, pdf_eof(), s) {
            Some(p) => Some(skip_newlines(d, p + 5)),
            None => match find_from(d, pdf_eof(), 0) {
                Some(p) => Some(skip_newlines(d, p + 5)),
                None => None,
            },
        }
    }
}

/// The ZIP end of central directory signature.
pub open spec fn zip_eocd() -> Seq<u8> {
    seq![0x50u8, 0x4B, 0x05, 0x06]
}

/// An end of central directory record at `a` whose comment fits in `d`.
pub open spec fn zip_end_at(d: Seq<u8>, a: int) -> bool {
    bytes_at(d, a, zip_eocd()) && a + 22 <= d.len() && a + 22 + le16(d, a + 20) <= d.len()
}

/// The end of the first end of central directory record at or after `a` whose comment fits.
pub open spec fn zip_end_from(d: Seq<u8>, a: int) -> Option<int>
    decreases d.len() - a,
{
    if a < 0 || a + 4 > d.len() {
        None
    } else if zip_end_at(d, a) {
        Some(a + 22 + le16(d, a + 20))
    } else {
        zip_end_from(d, a + 1)
    }
}

/// Where the ZIP at the start of `d` ends: after the first complete end of central
/// directory record in its last 65558 bytes.
pub open spec fn zip_size(d: Seq<u8>) -> Option<int> {
    if d.len() < 30 || !bytes_at(d, 0, seq![0x50u8, 0x4B, 0x03, 0x04]) {
        None
    } else {
        zip_end_from(d, if d.len() > 65558 { d.len() - 65558 } else { 0 })
    }
}

/// The walk over MP4 boxes from `off`: a box of size 0 runs to the end of the buffer, size 1
/// has a 64-bit size after the type, sizes below 8 (16 for 64-bit sizes) stop the walk, and
/// a box reaching the end of the buffer ends the file there. A walk that stops ends the file
/// at the box it stopped on, if that lies past offset 8.
pub open spec fn mp4_walk(d: Seq<u8>, off: int) -> Option<int>
    decreases d.len() - off,
{
    let stop = if off > 8 { Some(off) } else { None };
    if off < 0 || off + 8 > d.len() {
        stop
    } else {
        let size = be32(d, off) as int;
        if size == 0 {
            Some(d.len() as int)
        } else if size == 1 {
            if off + 16 > d.len() {
                stop
            } else {
                let ext = be64(d, off + 8) as int;
                if ext < 16 {
                    stop
                } else if off + ext >= d.len() {
                    Some(d.len() as int)
                } else {
                    mp4_walk(d, off + ext)
                }
            }
        } else if size < 8 {
            stop
        } else if off + size >= d.len() {
            Some(d.len() as int)
        } else {
            mp4_walk(d, off + size)
        }
    }
}

/// Where the MP4 at the start of `d` ends, by its box structure.
pub open spec fn mp4_size(d: Seq<u8>) -> Option<int> {
    if d.len() < 12 || !bytes_at(d, 4, seq![0x66u8, 0x74, 0x79, 0x70]) {
        None
    } else {
        mp4_walk(d, 0)
    }
}

/// The most bytes reported for a Matroska file.
pub const MKV_MAX_SIZE: u64 = 5368709120;

/// A Matroska file is taken to run to the end of the buffer, up to 5 GiB.
pub open spec fn mkv_size(d: Seq<u8>) -> Option<int> {
    if d.len() < 4 || !bytes_at(d, 0, seq![0x1Au8, 0x45, 0xDF, 0xA3]) {
        None
    } else if d.len() < MKV_MAX_SIZE {
        Some(d.len() as int)
    } else {
        Some(MKV_MAX_SIZE as int)
    }
}

/// An AVI file runs for its RIFF size plus the 8-byte RIFF header, or to the end of the
/// buffer if that is shorter.
pub open spec fn avi_size(d: Seq<u8>) -> Option<int> {
    if d.len() < 12 || !bytes_at(d, 0, seq![0x52u8, 0x49, 0x46, 0x46]) || !bytes_at(
        d,
        8,
        seq![0x41u8, 0x56, 0x49, 0x20],
    ) {
        None
    } else if le32(d, 4) + 8 <= d.len() {
        Some(le32(d, 4) + 8)
    } else {
        Some(d.len() as int)
    }
}

/// An AVI is measured by its RIFF header alone: for data that starts with `RIFF`, a
/// little-endian size `s` and `AVI `, the validator reports exactly `s + 8` bytes when that
/// many are available, whatever follows them, and the whole data when fewer are; data that
/// does not start so is no AVI.
pub proof fn lemma_avi_size_is_riff_size(d: Seq<u8>)
    ensures
        d.len() >= 12 && d[0] == 0x52 && d[1] == 0x49 && d[2] == 0x46 && d[3] == 0x46 && d[8]
            == 0x41 && d[9] == 0x56 && d[10] == 0x49 && d[11] == 0x20 ==> validated_size(
            FileType::Avi,
            d,
        ) == Some(
            if d[4] + 256 * d[5] + 65536 * d[6] + 16777216 * d[7] + 8 <= d.len() {
                d[4] + 256 * d[5] + 65536 * d[6] + 16777216 * d[7] + 8
            } else {
                d.len() as int
            },
        ),
        !(d.len() >= 12 && d[0] == 0x52 && d[1] == 0x49 && d[2] == 0x46 && d[3] == 0x46 && d[8]
            == 0x41 && d[9] == 0x56 && d[10] == 0x49 && d[11] == 0x20) ==> validated_size(
            FileType::Avi,
            d,
        ) is None,
{
    if d.len() >= 12 {
        if d.subrange(0, 4) =~= seq![0x52u8, 0x49, 0x46, 0x46] && d.subrange(8, 12) =~= seq![
            0x41u8,
            0x56,
            0x49,
            0x20,
        ] {
        } else {
            assert(!(d[0] == 0x52 && d[1] == 0x49 && d[2] == 0x46 && d[3] == 0x46 && d[8] == 0x41
                && d[9] == 0x56 && d[10] == 0x49 && d[11] == 0x20)) by {
                if d[0] == 0x52 && d[1] == 0x49 && d[2] == 0x46 && d[3] == 0x46 && d[8] == 0x41
                    && d[9] == 0x56 && d[10] == 0x49 && d[11] == 0x20 {
                    assert(d.subrange(0, 4) =~= seq![0x52u8, 0x49, 0x46, 0x46]);
                    assert(d.subrange(8, 12) =~= seq![0x41u8, 0x56, 0x49, 0x20]);
                }
            }
        }
    }
}

/// The end of the first GIF trailer byte `3B` at or after `i`.
pub open spec fn gif_end_from(d: Seq<u8>, i: int) -> Option<int>
    decreases d.len() - i,
{
    if i < 0 || i >= d.len() {
        None
    } else if d[i] == 0x3B {
        Some(i + 1)
    } else {
        gif_end_from(d, i + 1)
    }
}

/// Where the GIF at the start of `d` ends: after the first trailer byte from offset 6.
pub open spec fn gif_size(d: Seq<u8>) -> Option<int> {
    if d.len() < 6 || !(bytes_at(d, 0, seq![0x47u8, 0x49, 0x46, 0x38, 0x37, 0x61]) || bytes_at(
        d,
        0,
        seq![0x47u8, 0x49, 0x46, 0x38, 0x39, 0x61],
    )) {
        None
    } else {
        gif_end_from(d, 6)
    }
}

/// The size a validator reports for a file of type `t` at the start of `d`.
pub open spec fn validated_size(t: FileType, d: Seq<u8>) -> Option<int> {
    match t {
        FileType::Jpeg => jpeg_size(d),
        FileType::Png => png_size(d),
        FileType::Pdf => pdf_size(d),
        FileType::Zip => zip_size(d),
        FileType::Mp4 => mp4_size(d),
        FileType::Mkv => mkv_size(d),
        FileType::Avi => avi_size(d),
        FileType::Gif => gif_size(d),
    }
}

proof fn lemma_jpeg_within(d: Seq<u8>, i: int, lim: int)
    requires
        lim < d.len(),
    ensures
        jpeg_end_from(d, i, lim) matches Some(n) ==> i + 2 <= n <= d.len(),
        jpeg_end_from(d, i, lim) matches Some(n) ==> n - 2 < lim && jpeg_eoi(d, n - 2),
        jpeg_end_from(d, i, lim) matches Some(n) ==> forall|q: int|
            i <= q < n - 2 ==> !jpeg_eoi(d, q),
        jpeg_end_from(d, i, lim) is None ==> forall|q: int| i <= q < lim ==> !jpeg_eoi(d, q),
    decreases lim - i,
{
    if i < lim && !jpeg_eoi(d, i) {
        lemma_jpeg_within(d, i + 1, lim);
    }
}

proof fn lemma_find_within(d: Seq<u8>, pat: Seq<u8>, i: int)
    ensures
        find_from(d, pat, i) matches Some(p) ==> 0 <= i <= p && p + pat.len() <= d.len(),
        find_from(d, pat, i) matches Some(p) ==> bytes_at(d, p, pat),
        find_from(d, pat, i) matches Some(p) ==> forall|q: int|
            i <= q < p ==> !#[trigger] bytes_at(d, q, pat),
        i >= 0 && pat.len() > 0 && find_from(d, pat, i) is None ==> forall|q: int|
            i <= q && q + pat.len() <= d.len() ==> !#[trigger] bytes_at(d, q, pat),
    decreases d.len() - i,
{
    if !(i < 0 || i >= d.len() || i + pat.len() > d.len()) && !bytes_at(d, i, pat) {
        lemma_find_within(d, pat, i + 1);
    }
}

proof fn lemma_gif_first(d: Seq<u8>, i: int)
    requires
        i >= 0,
    ensures
        gif_end_from(d, i) matches Some(e) ==> i < e <= d.len() && d[e - 1] == 0x3B && forall|q: int|
            i <= q < e - 1 ==> #[trigger] d[q] != 0x3B,
        gif_end_from(d, i) is None ==> forall|q: int| i <= q < d.len() ==> #[trigger] d[q] != 0x3B,
    decreases d.len() - i,
{
    if i < d.len() && d[i] != 0x3B {
        lemma_gif_first(d, i + 1);
    }
}

/// A PNG is measured up to the end of its first `IEND` chunk: for data that starts with the
/// PNG signature, the validator reports `e` when the eight bytes of `IEND` and its CRC end at
/// `e` and occur nowhere earlier, and nothing when they occur nowhere.
pub proof fn lemma_png_first_iend(d: Seq<u8>)
    requires
        d.len() >= 8,
        d[0] == 0x89 && d[1] == 0x50 && d[2] == 0x4E && d[3] == 0x47,
        d[4] == 0x0D && d[5] == 0x0A && d[6] == 0x1A && d[7] == 0x0A,
    ensures
        validated_size(FileType::Png, d) matches Some(e) ==> 8 <= e <= d.len() && d.subrange(e - 8, e)
            == seq![0x49u8, 0x45, 0x4E, 0x44, 0xAE, 0x42, 0x60, 0x82] && forall|q: int|
            0 <= q < e - 8 ==> #[trigger] d.subrange(q, q + 8) != seq![0x49u8, 0x45, 0x4E, 0x44, 0xAE, 0x42, 0x60, 0x82],
        validated_size(FileType::Png, d) is None ==> forall|q: int|
            0 <= q <= d.len() - 8 ==> #[trigger] d.subrange(q, q + 8) != seq![0x49u8, 0x45, 0x4E, 0x44, 0xAE, 0x42, 0x60, 0x82],
{
    assert(d.subrange(0, 8) =~= seq![0x89u8, 0x50, 0x4E, 0x47, 0x0D, 0x0A, 0x1A, 0x0A]);
    lemma_find_within(d, png_iend(), 0);
    assert forall|q: int| 0 <= q && q + 8 <= d.len() && !bytes_at(d, q, png_iend()) implies #[trigger] d.subrange(q, q + 8)
        != seq![0x49u8, 0x45, 0x4E, 0x44, 0xAE, 0x42, 0x60, 0x82] by {
    }
}

/// A JPEG is measured up to its first end of image marker: for data that starts `FF D8 FF`,
/// the validator reports `e` when `FF D9` ends at `e`, starting at offset 3 or later and
/// before 50 MiB, with no `FF D9` from offset 3 up to there; and nothing when there is no
/// `FF D9` from offset 3 up to the end of the data or 50 MiB.
pub proof fn lemma_jpeg_first_eoi(d: Seq<u8>)
    requires
        d.len() >= 4,
        d[0] == 0xFF && d[1] == 0xD8 && d[2] == 0xFF,
    ensures
        validated_size(FileType::Jpeg, d) matches Some(e) ==> 5 <= e <= d.len() && e - 2 < 52428800
            && d.subrange(e - 2, e) == seq![0xFFu8, 0xD9] && forall|q: int|
            3 <= q < e - 2 ==> #[trigger] d.subrange(q, q + 2) != seq![0xFFu8, 0xD9],
        validated_size(FileType::Jpeg, d) is None ==> forall|q: int|
            3 <= q < d.len() - 1 && q < 52428800 ==> #[trigger] d.subrange(q, q + 2) != seq![0xFFu8, 0xD9],
{
    assert(d.subrange(0, 3) =~= seq![0xFFu8, 0xD8, 0xFF]);
    let lim = if d.len() - 1 < JPEG_SEARCH_LIMIT { d.len() - 1 } else { JPEG_SEARCH_LIMIT as int };
    lemma_jpeg_within(d, 3, lim);
    assert forall|q: int| 0 <= q && q + 2 <= d.len() && !jpeg_eoi(d, q) implies #[trigger] d.subrange(q, q + 2)
        != seq![0xFFu8, 0xD9] by {
        if d.subrange(q, q + 2) == seq![0xFFu8, 0xD9] {
            assert(d.subrange(q, q + 2)[0] == d[q]);
            assert(d.subrange(q, q + 2)[1] == d[q + 1]);
        }
    }
    if let Some(e) = validated_size(FileType::Jpeg, d) {
        assert(d.subrange(e - 2, e) =~= seq![0xFFu8, 0xD9]);
    }
}

/// A GIF is measured up to its first trailer byte `3B`: for data that starts `GIF87a` or
/// `GIF89a`, the validator reports `e` when byte `e - 1` is `3B`, at offset 6 or later, with
/// no `3B` from offset 6 up to there; and nothing when there is no `3B` from offset 6 on.
pub proof fn lemma_gif_first_trailer(d: Seq<u8>)
    requires
        d.len() >= 6,
        d[0] == 0x47 && d[1] == 0x49 && d[2] == 0x46 && d[3] == 0x38,
        d[4] == 0x37 || d[4] == 0x39,
        d[5] == 0x61,
    ensures
        validated_size(FileType::Gif, d) matches Some(e) ==> 7 <= e <= d.len() && d[e - 1] == 0x3B
            && forall|q: int| 6 <= q < e - 1 ==> #[trigger] d[q] != 0x3B,
        validated_size(FileType::Gif, d) is None ==> forall|q: int| 6 <= q < d.len() ==> #[trigger] d[q] != 0x3B,
{
    if d[4] == 0x37 {
        assert(d.subrange(0, 6) =~= seq![0x47u8, 0x49, 0x46, 0x38, 0x37, 0x61]);
    } else {
        assert(d.subrange(0, 6) =~= seq![0x47u8, 0x49, 0x46, 0x38, 0x39, 0x61]);
    }
    lemma_gif_first(d, 6);
}

/// The record `zip_end_from` picks is the first complete one.
proof fn lemma_zip_first(d: Seq<u8>, a: int)
    requires
        a >= 0,
    ensures
        zip_end_from(d, a) matches Some(n) ==> exists|b: int|
            a <= b && #[trigger] zip_end_at(d, b) && n == b + 22 + le16(d, b + 20) && forall|q: int|
                a <= q < b ==> !#[trigger] zip_end_at(d, q),
        zip_end_from(d, a) is None ==> forall|q: int| a <= q ==> !#[trigger] zip_end_at(d, q),
    decreases d.len() - a,
{
    if a + 4 <= d.len() && !zip_end_at(d, a) {
        lemma_zip_first(d, a + 1);
        if let Some(n) = zip_end_from(d, a + 1) {
            let b = choose|b: int|
                a + 1 <= b && #[trigger] zip_end_at(d, b) && n == b + 22 + le16(d, b + 20) && forall|q: int|
                    a + 1 <= q < b ==> !#[trigger] zip_end_at(d, q);
            assert(a <= b && zip_end_at(d, b));
        }
    } else if a + 4 <= d.len() {
        assert(zip_end_at(d, a));
    }
}

/// A ZIP is measured up to the end of its first complete end of central directory record in
/// its last 65558 bytes: for data of at least 30 bytes that starts `PK 03 04`, the validator
/// reports `n` when a record `PK 05 06` starts at `b` within that tail, with its comment
/// (of the length at `b + 20`) ending at `n` inside the data, and no earlier such complete
/// record starts in the tail; and nothing when the tail holds no complete record.
pub proof fn lemma_zip_first_eocd(d: Seq<u8>)
    requires
        d.len() >= 30,
        d[0] == 0x50 && d[1] == 0x4B && d[2] == 0x03 && d[3] == 0x04,
    ensures
        ({
            let from = if d.len() > 65558 { d.len() - 65558 } else { 0 };
            &&& validated_size(FileType::Zip, d) matches Some(n) ==> n <= d.len() && exists|b: int|
                from <= b && #[trigger] d.subrange(b, b + 4) == seq![0x50u8, 0x4B, 0x05, 0x06] && n == b + 22
                    + d[b + 20] + 256 * d[b + 21] && forall|q: int|
                    from <= q < b ==> !(#[trigger] d.subrange(q, q + 4) == seq![0x50u8, 0x4B, 0x05, 0x06]
                        && q + 22 + d[q + 20] + 256 * d[q + 21] <= d.len())
            &&& validated_size(FileType::Zip, d) is None ==> forall|q: int|
                from <= q ==> !(#[trigger] d.subrange(q, q + 4) == seq![0x50u8, 0x4B, 0x05, 0x06] && q
                    + 22 + d[q + 20] + 256 * d[q + 21] <= d.len())
        }),
{
    assert(d.subrange(0, 4) =~= seq![0x50u8, 0x4B, 0x03, 0x04]);
    let from = if d.len() > 65558 { d.len() - 65558 } else { 0 };
    lemma_zip_first(d, from);
    lemma_zip_within(d, from);
    assert forall|q: int| from <= q && !zip_end_at(d, q) implies !(#[trigger] d.subrange(q, q + 4) == seq![
        0x50u8,
        0x4B,
        0x05,
        0x06,
    ] && q + 22 + d[q + 20] + 256 * d[q + 21] <= d.len()) by {
        if d.subrange(q, q + 4) == seq![0x50u8, 0x4B, 0x05, 0x06] && q + 22 + d[q + 20] + 256 * d[q + 21] <= d.len() {
            assert(bytes_at(d, q, zip_eocd()));
        }
    }
    if let Some(n) = validated_size(FileType::Zip, d) {
        let b = choose|b: int|
            from <= b && #[trigger] zip_end_at(d, b) && n == b + 22 + le16(d, b + 20) && forall|q: int|
                from <= q < b ==> !#[trigger] zip_end_at(d, q);
        assert(d.subrange(b, b + 4) == seq![0x50u8, 0x4B, 0x05, 0x06]);
    }
}

/// A PDF is measured up to the end of a `%%EOF` marker and the line breaks after it: for data
/// of at least 8 bytes that starts `%PDF-`, the validator reports `e` when a `%%EOF` ends at
/// or before `e`, the bytes from its end up to `e` are carriage returns and line feeds, and
/// the byte at `e`, if any, is neither; the marker is the first one in the last 4096 bytes,
/// or, when there is none there, the first one in the data. With no `%%EOF` in the data the
/// validator reports nothing.
pub proof fn lemma_pdf_eof(d: Seq<u8>)
    requires
        d.len() >= 8,
        d[0] == 0x25 && d[1] == 0x50 && d[2] == 0x44 && d[3] == 0x46 && d[4] == 0x2D,
    ensures
        ({
            let from = if d.len() > 4096 { d.len() - 4096 } else { 0 };
            let eof = seq![0x25u8, 0x25, 0x45, 0x4F, 0x46];
            &&& validated_size(FileType::Pdf, d) matches Some(e) ==> exists|p: int|
                0 <= p && #[trigger] d.subrange(p, p + 5) == eof && p + 5 <= e <= d.len() && (forall|q: int|
                    p + 5 <= q < e ==> #[trigger] d[q] == 0x0D || d[q] == 0x0A) && (e < d.len() ==> d[e]
                    != 0x0D && d[e] != 0x0A) && ((from <= p && forall|q: int|
                    from <= q < p ==> #[trigger] d.subrange(q, q + 5) != eof) || ((forall|q: int|
                    from <= q <= d.len() - 5 ==> #[trigger] d.subrange(q, q + 5) != eof) && forall|q: int|
                    0 <= q < p ==> #[trigger] d.subrange(q, q + 5) != eof))
            &&& validated_size(FileType::Pdf, d) is None ==> forall|q: int|
                0 <= q <= d.len() - 5 ==> #[trigger] d.subrange(q, q + 5) != eof
        }),
{
    assert(d.subrange(0, 5) =~= seq![0x25u8, 0x50, 0x44, 0x46, 0x2D]);
    let from = if d.len() > 4096 { d.len() - 4096 } else { 0 };
    let eof = seq![0x25u8, 0x25, 0x45, 0x4F, 0x46];
    assert(pdf_eof() == eof);
    lemma_find_within(d, eof, from);
    lemma_find_within(d, eof, 0);
    assert forall|q: int| 0 <= q && q + 5 <= d.len() && !bytes_at(d, q, eof) implies #[trigger] d.subrange(q, q + 5)
        != eof by {
    }
    match find_from(d, eof, from) {
        Some(p) => {
            lemma_skip_within(d, p + 5);
            assert(d.subrange(p, p + 5) == eof);
        },
        None => {
            match find_from(d, eof, 0) {
                Some(p) => {
                    lemma_skip_within(d, p + 5);
                    assert(d.subrange(p, p + 5) == eof);
                },
                None => {},
            }
        },
    }
}

/// An MP4 is measured by walking its boxes from offset 0. Data of at least 12 bytes with
/// `ftyp` at byte 4 is walked, other data is no MP4. At a box starting at `off` with its
/// 8-byte header in the data, the box's size is the big-endian 32-bit value at `off`: 0 means
/// the box, and the file, runs to the end of the data; 1 means the size is the big-endian
/// 64-bit value at `off + 8` (which must be in the data and at least 16); sizes from 2 to 7
/// are invalid. A valid box that reaches the end of the data ends the file there; otherwise
/// the walk goes on at the next box. Where the walk stops (no room for a header, or an
/// invalid size), the file ends at the box it stopped at, if that lies past byte 8, and is
/// no MP4 otherwise.
pub proof fn lemma_mp4_box_walk(d: Seq<u8>, off: int)
    requires
        off >= 0,
    ensures
        validated_size(FileType::Mp4, d) == (if d.len() >= 12 && d[4] == 0x66 && d[5] == 0x74 && d[6]
            == 0x79 && d[7] == 0x70 {
            mp4_walk(d, 0)
        } else {
            None
        }),
        ({
            let stop = if off > 8 { Some(off) } else { None::<int> };
            let size = be_value(d, off, 4);
            let ext = be_value(d, off + 8, 8);
            mp4_walk(d, off) == if off + 8 > d.len() {
                stop
            } else if size == 0 {
                Some(d.len() as int)
            } else if size == 1 {
                if off + 16 > d.len() || ext < 16 {
                    stop
                } else if off + ext >= d.len() {
                    Some(d.len() as int)
                } else {
                    mp4_walk(d, off + ext)
                }
            } else if size < 8 {
                stop
            } else if off + size >= d.len() {
                Some(d.len() as int)
            } else {
                mp4_walk(d, off + size)
            }
        }),
{
    lemma_byte_order(d, off);
    lemma_byte_order(d, off + 8);
    if d.len() >= 12 && d[4] == 0x66 && d[5] == 0x74 && d[6] == 0x79 && d[7] == 0x70 {
        assert(d.subrange(4, 8) =~= seq![0x66u8, 0x74, 0x79, 0x70]);
    } else if d.len() >= 12 {
        if bytes_at(d, 4, seq![0x66u8, 0x74, 0x79, 0x70]) {
            assert(d.subrange(4, 8)[0] == d[4] && d.subrange(4, 8)[1] == d[5] && d.subrange(4, 8)[2]
                == d[6] && d.subrange(4, 8)[3] == d[7]);
        }
    }
}

/// A Matroska file is taken to run to the end of the data, up to 5 GiB: for data that starts
/// `1A 45 DF A3` the validator reports its length, or 5 GiB when it is longer.
pub proof fn lemma_mkv_to_end(d: Seq<u8>)
    requires
        d.len() >= 4,
        d[0] == 0x1A && d[1] == 0x45 && d[2] == 0xDF && d[3] == 0xA3,
    ensures
        validated_size(FileType::Mkv, d) == Some(
            if d.len() < 5368709120 {
                d.len() as int
            } else {
                5368709120int
            },
        ),
{
    assert(d.subrange(0, 4) =~= seq![0x1Au8, 0x45, 0xDF, 0xA3]);
}

proof fn lemma_skip_within(d: Seq<u8>, e: int)
    requires
        0 <= e <= d.len(),
    ensures
        e <= skip_newlines(d, e) <= d.len(),
        forall|q: int| e <= q < skip_newlines(d, e) ==> #[trigger] d[q] == 0x0D || d[q] == 0x0A,
        skip_newlines(d, e) < d.len() ==> d[skip_newlines(d, e)] != 0x0D && d[skip_newlines(d, e)]
            != 0x0A,
    decreases d.len() - e,
{
    if e < d.len() && (d[e] == 0x0D || d[e] == 0x0A) {
        lemma_skip_within(d, e + 1);
    }
}

proof fn lemma_zip_within(d: Seq<u8>, a: int)
    ensures
        zip_end_from(d, a) matches Some(n) ==> 0 <= n <= d.len(),
    decreases d.len() - a,
{
    if !(a < 0 || a + 4 > d.len()) && !zip_end_at(d, a) {
        lemma_zip_within(d, a + 1);
    }
}

proof fn lemma_mp4_within(d: Seq<u8>, off: int)
    requires
        0 <= off <= d.len(),
    ensures
        mp4_walk(d, off) matches Some(n) ==> 0 <= n <= d.len(),
    decreases d.len() - off,
{
    if off + 8 <= d.len() {
        let size = be32(d, off) as int;
        if size == 1 && off + 16 <= d.len() {
            let ext = be64(d, off + 8) as int;
            if ext >= 16 && off + ext < d.len() {
                lemma_mp4_within(d, off + ext);
            }
        } else if size >= 8 && off + size < d.len() {
            lemma_mp4_within(d, off + size);
        }
    }
}

proof fn lemma_gif_within(d: Seq<u8>, i: int)
    ensures
        gif_end_from(d, i) matches Some(n) ==> 0 <= n <= d.len(),
    decreases d.len() - i,
{
    if !(i < 0 || i >= d.len()) && d[i] != 0x3B {
        lemma_gif_within(d, i + 1);
    }
}

/// A size a validator reports never exceeds the bytes it was given.
pub proof fn lemma_validated_within(t: FileType, d: Seq<u8>)
    ensures
        validated_size(t, d) matches Some(n) ==> 0 <= n <= d.len(),
{
    match t {
        FileType::Jpeg => {
            if d.len() >= 4 {
                let lim = if d.len() - 1 < JPEG_SEARCH_LIMIT { d.len() - 1 } else { JPEG_SEARCH_LIMIT as int };
                lemma_jpeg_within(d, 3, lim);
            }
        },
        FileType::Png => {
            lemma_find_within(d, png_iend(), 0);
        },
        FileType::Pdf => {
            let s = if d.len() > 4096 { d.len() - 4096 } else { 0 };
            lemma_find_within(d, pdf_eof(), s);
            lemma_find_within(d, pdf_eof(), 0);
            if let Some(p) = find_from(d, pdf_eof(), s) {
                lemma_skip_within(d, p + 5);
            }
            if let Some(p) = find_from(d, pdf_eof(), 0) {
                lemma_skip_within(d, p + 5);
            }
        },
        FileType::Zip => {
            lemma_zip_within(d, if d.len() > 65558 { d.len() - 65558 } else { 0 });
        },
        FileType::Mp4 => {
            lemma_mp4_within(d, 0);
        },
        FileType::Gif => {
            lemma_gif_within(d, 6);
        },
        _ => {},
    }
}

/// A validator's result as a mathematical value.
pub open spec fn size_opt(r: Option<usize>) -> Option<int> {
    match r {
        Some(n) => Some(n as int),
        None => None,
    }
}

/// The first position at or after `from` where the non-empty `pat` occurs in `data`.
fn find_pattern(data: &[u8], pat: &[u8], from: usize) -> (r: Option<usize>)
    requires
        pat@.len() > 0,
    ensures
        size_opt(r) == find_from(data@, pat@, from as int),
        r matches Some(p) ==> from <= p && p + pat@.len() <= data@.len(),
{
    let n = data.len();
    let m = pat.len();
    if m > n {
        return None;
    }
    let mut p = from;
    while p <= n - m
        invariant
            m == pat@.len() > 0,
            n == data@.len(),
            m <= n,
            from <= p,
            find_from(data@, pat@, from as int) == find_from(data@, pat@, p as int),
        decreases n - p,
    {
        if matches_at(data, p, pat) {
            return Some(p);
        }
        p += 1;
    }
    None
}

/// The position after the carriage returns and line feeds from `e` on.
fn skip_newline_bytes(data: &[u8], e: usize) -> (r: usize)
    requires
        e <= data@.len(),
    ensures
        r == skip_newlines(data@, e as int),
{
    let mut k = e;
    while k < data.len() && (data[k] == 0x0D || data[k] == 0x0A)
        invariant
            e <= k <= data@.len(),
            skip_newlines(data@, e as int) == skip_newlines(data@, k as int),
        decreases data@.len() - k,
    {
        k += 1;
    }
    k
}

/// Checks the structure of carved files and finds where they end.
pub struct FileValidator;

impl FileValidator {
    /// The size of the file of type `file_type` at the start of `data`, when its structure
    /// checks out.
    pub fn validate_and_calculate_size(file_type: FileType, data: &[u8]) -> (r: Option<usize>)
        ensures
            size_opt(r) == validated_size(file_type, data@),
    {
        match file_type {
            FileType::Jpeg => Self::validate_jpeg(data),
            FileType::Png => Self::validate_png(data),
            FileType::Pdf => Self::validate_pdf(data),
            FileType::Zip => Self::validate_zip(data),
            FileType::Mp4 => Self::validate_mp4(data),
            FileType::Mkv => Self::validate_mkv(data),
            FileType::Avi => Self::validate_avi(data),
            FileType::Gif => Self::validate_gif(data),
        }
    }

    fn validate_jpeg(data: &[u8]) -> (r: Option<usize>)
        ensures
            size_opt(r) == jpeg_size(data@),
    {
        let magic: [u8; 3] = [0xFF, 0xD8, 0xFF];
        assert(magic@ =~= seq![0xFFu8, 0xD8, 0xFF]);
        if data.len() < 4 || !matches_at(data, 0, &magic) {
            return None;
        }
        let lim = if data.len() - 1 < JPEG_SEARCH_LIMIT {
            data.len() - 1
        } else {
            JPEG_SEARCH_LIMIT
        };
        let mut i: usize = 3;
        while i < lim
            invariant
                3 <= i,
                lim < data@.len(),
                jpeg_size(data@) == jpeg_end_from(data@, i as int, lim as int),
            decreases lim - i,
        {
            if data[i] == 0xFF && data[i + 1] == 0xD9 {
                return Some(i + 2);
            }
            i += 1;
        }
        None
    }

    fn validate_png(data: &[u8]) -> (r: Option<usize>)
        ensures
            size_opt(r) == png_size(data@),
    {
        let magic: [u8; 8] = [0x89, 0x50, 0x4E, 0x47, 0x0D, 0x0A, 0x1A, 0x0A];
        assert(magic@ =~= seq![0x89u8, 0x50, 0x4E, 0x47, 0x0D, 0x0A, 0x1A, 0x0A]);
        if data.len() < 8 || !matches_at(data, 0, &magic) {
            return None;
        }
        let iend: [u8; 8] = [0x49, 0x45, 0x4E, 0x44, 0xAE, 0x42, 0x60, 0x82];
        assert(iend@ =~= png_iend());
        match find_pattern(data, &iend, 0) {
            Some(pos) => Some(pos + 8),
            None => None,
        }
    }

    fn validate_pdf(data: &[u8]) -> (r: Option<usize>)
        ensures
            size_opt(r) == pdf_size(data@),
    {
        let magic: [u8; 5] = [0x25, 0x50, 0x44, 0x46, 0x2D];
        assert(magic@ =~= seq![0x25u8, 0x50, 0x44, 0x46, 0x2D]);
        if data.len() < 8 || !matches_at(data, 0, &magic) {
            return None;
        }
        let eof: [u8; 5] = [0x25, 0x25, 0x45, 0x4F, 0x46];
        assert(eof@ =~= pdf_eof());
        let search_start = if data.len() > 4096 {
            data.len() - 4096
        } else {
            0
        };
        match find_pattern(data, &eof, search_start) {
            Some(p) => Some(skip_newline_bytes(data, p + 5)),
            None => match find_pattern(data, &eof, 0) {
                Some(p) => Some(skip_newline_bytes(data, p + 5)),
                None => None,
            },
        }
    }

    fn validate_zip(data: &[u8]) -> (r: Option<usize>)
        ensures
            size_opt(r) == zip_size(data@),
    {
        let magic: [u8; 4] = [0x50, 0x4B, 0x03, 0x04];
        assert(magic@ =~= seq![0x50u8, 0x4B, 0x03, 0x04]);
        if data.len() < 30 || !matches_at(data, 0, &magic) {
            return None;
        }
        let eocd: [u8; 4] = [0x50, 0x4B, 0x05, 0x06];
        assert(eocd@ =~= zip_eocd());
        let n = data.len();
        let mut a = if n > 65558 {
            n - 65558
        } else {
            0
        };
        while a <= n - 4
            invariant
                n == data@.len(),
                n >= 30,
                eocd@ == zip_eocd(),
                zip_size(data@) == zip_end_from(data@, a as int),
            decreases n - a,
        {
            if matches_at(data, a, &eocd) && a <= n - 22 {
                let comment_len = get_le16(data, a + 20) as usize;
                if comment_len <= n - 22 - a {
                    assert(zip_end_at(data@, a as int));
                    return Some(a + 22 + comment_len);
                }
            }
            assert(!zip_end_at(data@, a as int));
            a += 1;
        }
        None
    }

    fn validate_mp4(data: &[u8]) -> (r: Option<usize>)
        ensures
            size_opt(r) == mp4_size(data@),
    {
        let ftyp: [u8; 4] = [0x66, 0x74, 0x79, 0x70];
        assert(ftyp@ =~= seq![0x66u8, 0x74, 0x79, 0x70]);
        let n = data.len();
        if n < 12 || !matches_at(data, 4, &ftyp) {
            return None;
        }
        let mut off: usize = 0;
        loop
            invariant
                n == data@.len(),
                off <= n,
                mp4_size(data@) == mp4_walk(data@, off as int),
            decreases n - off,
        {
            if n - off < 8 {
                return if off > 8 {
                    Some(off)
                } else {
                    None
                };
            }
            let size = get_be32(data, off) as u64;
            if size == 0 {
                return Some(n);
            } else if size == 1 {
                if n - off < 16 {
                    return if off > 8 {
                        Some(off)
                    } else {
                        None
                    };
                }
                let ext = get_be64(data, off + 8);
                if ext < 16 {
                    return if off > 8 {
                        Some(off)
                    } else {
                        None
                    };
                }
                if ext >= (n - off) as u64 {
                    return Some(n);
                }
                off = off + ext as usize;
            } else if size < 8 {
                return if off > 8 {
                    Some(off)
                } else {
                    None
                };
            } else {
                if size >= (n - off) as u64 {
                    return Some(n);
                }
                off = off + size as usize;
            }
        }
    }

    fn validate_mkv(data: &[u8]) -> (r: Option<usize>)
        ensures
            size_opt(r) == mkv_size(data@),
    {
        let magic: [u8; 4] = [0x1A, 0x45, 0xDF, 0xA3];
        assert(magic@ =~= seq![0x1Au8, 0x45, 0xDF, 0xA3]);
        if data.len() < 4 || !matches_at(data, 0, &magic) {
            return None;
        }
        if (data.len() as u64) < MKV_MAX_SIZE {
            Some(data.len())
        } else {
            Some(MKV_MAX_SIZE as usize)
        }
    }

    fn validate_avi(data: &[u8]) -> (r: Option<usize>)
        ensures
            size_opt(r) == avi_size(data@),
    {
        let riff: [u8; 4] = [0x52, 0x49, 0x46, 0x46];
        let avi: [u8; 4] = [0x41, 0x56, 0x49, 0x20];
        assert(riff@ =~= seq![0x52u8, 0x49, 0x46, 0x46]);
        assert(avi@ =~= seq![0x41u8, 0x56, 0x49, 0x20]);
        if data.len() < 12 || !matches_at(data, 0, &riff) || !matches_at(data, 8, &avi) {
            return None;
        }
        let total = get_le32(data, 4) as u64 + 8;
        if total <= data.len() as u64 {
            Some(total as usize)
        } else {
            Some(data.len())
        }
    }

    fn validate_gif(data: &[u8]) -> (r: Option<usize>)
        ensures
            size_opt(r) == gif_size(data@),
    {
        let gif87: [u8; 6] = [0x47, 0x49, 0x46, 0x38, 0x37, 0x61];
        let gif89: [u8; 6] = [0x47, 0x49, 0x46, 0x38, 0x39, 0x61];
        assert(gif87@ =~= seq![0x47u8, 0x49, 0x46, 0x38, 0x37, 0x61]);
        assert(gif89@ =~= seq![0x47u8, 0x49, 0x46, 0x38, 0x39, 0x61]);
        if data.len() < 6 || (!matches_at(data, 0, &gif87) && !matches_at(data, 0, &gif89)) {
            return None;
        }
        let mut i: usize = 6;
        while i < data.len()
            invariant
                6 <= i <= data@.len(),
                gif_size(data@) == gif_end_from(data@, i as int),
            decreases data@.len() - i,
        {
            if data[i] == 0x3B {
                return Some(i + 1);
            }
            i += 1;
        }
        None
    }
}

} // verus!
