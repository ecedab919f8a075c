//! Master File Table records.

use vstd::prelude::*;
use crate::attribute::{
    attr_step, attribute_fields, attribute_parse_result, bad_length_message, file_name_fields,
    file_name_parses, AttrStep, AttributeData, AttributeType, FileNameAttribute, NtfsAttribute,
    StandardInformation,
};
use crate::endian::{bytes_at, le16, le32, le64, le_value, lemma_byte_order, matches_at};
use crate::error::{out_of_bounds, RecoveryError, Result};
use crate::gpt::slice_to_vec;
use crate::text::{dec_text, push_dec, push_str, utf8_lossy, utf8_lossy_string};
use crate::types::spec_filetime_to_datetime;
use crate::usn::{fixup_spec, fixup_walks, UsnFixup};

verus! {

/// `"FILE"`, the signature of an MFT record.
pub const MFT_RECORD_MAGIC_FILE: [u8; 4] = [0x46, 0x49, 0x4C, 0x45];

/// `"BAAD"`, the signature NTFS writes over a record that failed its fixup.
pub const MFT_RECORD_MAGIC_BAAD: [u8; 4] = [0x42, 0x41, 0x41, 0x44];

pub const MFT_RECORD_IN_USE: u16 = 0x0001;

pub const MFT_RECORD_IS_DIRECTORY: u16 = 0x0002;

/// `"FILE"` as bytes.
pub open spec fn file_magic() -> Seq<u8> {
    seq![0x46u8, 0x49, 0x4C, 0x45]
}

/// A parsed MFT record.
#[derive(Debug, Clone)]
pub struct MftRecord {
    pub record_number: u64,
    pub sequence_number: u16,
    pub hard_link_count: u16,
    pub is_in_use: bool,
    pub is_directory: bool,
    pub base_record_ref: u64,
    pub attributes: Vec<NtfsAttribute>,
}

/// The offsets of the attributes found from `o` on in record `b`, and how the walk stopped:
/// `None` at the end, or the failing header step.
pub open spec fn attr_chain(b: Seq<u8>, o: int) -> (Seq<int>, Option<AttrStep>)
    decreases b.len() - o,
{
    if o < 0 || o >= b.len() {
        (Seq::empty(), None)
    } else {
        match attr_step(b, o) {
            AttrStep::Next(rl) => {
                if rl == 0 || o + rl > b.len() {
                    (Seq::empty(), None)
                } else {
                    let rest = attr_chain(b, o + rl);
                    (seq![o] + rest.0, rest.1)
                }
            },
            AttrStep::End => (Seq::empty(), None),
            other => (Seq::empty(), Some(other)),
        }
    }
}

/// Whether `attrs` are the attributes at the offsets `offs` of record `b`.
pub open spec fn attributes_at(attrs: Seq<NtfsAttribute>, b: Seq<u8>, offs: Seq<int>) -> bool {
    &&& attrs.len() == offs.len()
    &&& forall|k: int|
        0 <= k < attrs.len() ==> attribute_fields(
            #[trigger] attrs[k],
            b,
            offs[k],
            le32(b, offs[k] + 4),
        )
}

/// Whether `r` is what parsing the record bytes `raw` gives, `fixed` being the bytes after
/// the update sequence fixup.
pub open spec fn mft_fields(m: MftRecord, fixed: Seq<u8>, record_number: u64) -> bool {
    let flags = le16(fixed, 22);
    let chain = attr_chain(fixed, le16(fixed, 20) as int);
    &&& m.record_number == record_number
    &&& m.sequence_number == le16(fixed, 16)
    &&& m.hard_link_count == le16(fixed, 18)
    &&& m.is_in_use == (flags & MFT_RECORD_IN_USE != 0)
    &&& m.is_directory == (flags & MFT_RECORD_IS_DIRECTORY != 0)
    &&& m.base_record_ref == le64(fixed, 32)
    &&& attributes_at(m.attributes@, fixed, chain.0)
}

/// Where an MFT record header keeps its fields (after the fixup): the sequence number and the
/// hard link count are the little-endian 16-bit values at bytes 16 and 18, the base record
/// reference the 64-bit value at 32; the record is in use when bit 0 of the flags byte at 22
/// is set, and a directory when bit 1 is.
pub proof fn lemma_mft_header_layout(m: MftRecord, fixed: Seq<u8>, record_number: u64)
    requires
        fixed.len() >= 48,
        mft_fields(m, fixed, record_number),
    ensures
        m.record_number == record_number,
        m.sequence_number == le_value(fixed, 16, 2),
        m.hard_link_count == le_value(fixed, 18, 2),
        m.base_record_ref == le_value(fixed, 32, 8),
        m.is_in_use == (fixed[22] % 2 == 1),
        m.is_directory == ((fixed[22] / 2) % 2 == 1),
{
    lemma_byte_order(fixed, 16);
    lemma_byte_order(fixed, 18);
    lemma_byte_order(fixed, 32);
    let x = le16(fixed, 22);
    assert((x & 1u16 != 0) == (x % 2 == 1)) by (bit_vector);
    assert((x & 2u16 != 0) == ((x / 2) % 2 == 1)) by (bit_vector);
    let a = fixed[22] as int;
    let h = fixed[23] as int;
    assert(x == a + 256 * h);
    assert(x % 2 == a % 2 && (x / 2) % 2 == (a / 2) % 2) by (nonlinear_arith)
        requires
            x == a + 256 * h,
            0 <= a < 256,
            0 <= h < 256,
    ;
}

/// The outcome of `MftRecord::parse` on the record bytes `raw`.
pub open spec fn mft_parse_result(
    r: Result<MftRecord>,
    raw: Seq<u8>,
    record_number: u64,
    bps: int,
) -> bool {
    if raw.len() < 48 {
        r == Err::<MftRecord, RecoveryError>(out_of_bounds(0, 48, raw.len() as usize))
    } else if !bytes_at(raw, 0, file_magic()) {
        r matches Err(RecoveryError::InvalidSignature { expected, found }) && expected@
            == "FILE"@ && found@ == utf8_lossy(raw.subrange(0, 4))
    } else if fixup_spec(raw, bps).1 is Err {
        r == Err::<MftRecord, RecoveryError>(fixup_spec(raw, bps).1->Err_0)
    } else {
        let fixed = fixup_spec(raw, bps).0;
        match attr_chain(fixed, le16(fixed, 20) as int).1 {
            None => r matches Ok(m) && mft_fields(m, fixed, record_number),
            Some(AttrStep::BadLength(rl)) => r matches Err(RecoveryError::NtfsError(msg))
                && msg@ == bad_length_message(rl),
            Some(AttrStep::Short(p, c, a)) => r == Err::<MftRecord, RecoveryError>(
                out_of_bounds(p, c, a),
            ),
            _ => false,
        }
    }
}

/// The record bytes `raw` parse: long enough, `FILE` signature, fixups that apply, and an
/// attribute walk that ends at the end marker.
pub open spec fn mft_parses(raw: Seq<u8>, bps: int) -> bool {
    &&& raw.len() >= 48
    &&& bytes_at(raw, 0, file_magic())
    &&& fixup_spec(raw, bps).1 is Ok
    &&& attr_chain(fixup_spec(raw, bps).0, le16(fixup_spec(raw, bps).0, 20) as int).1 is None
}

/// A parse succeeds exactly on the bytes that parse.
pub proof fn lemma_parse_result_ok(r: Result<MftRecord>, raw: Seq<u8>, record_number: u64, bps: int)
    requires
        mft_parse_result(r, raw, record_number, bps),
    ensures
        r is Ok <==> mft_parses(raw, bps),
{
}

/// The resident bytes of an attribute, or nothing for a non-resident one.
pub open spec fn resident_bytes(a: NtfsAttribute) -> Seq<u8> {
    match a.data {
        AttributeData::Resident(v) => v@,
        _ => Seq::empty(),
    }
}

/// A resident `$STANDARD_INFORMATION` attribute.
pub open spec fn is_resident_std_info(a: NtfsAttribute) -> bool {
    a.attr_type == AttributeType::StandardInformation && a.data is Resident
}

/// A resident `$FILE_NAME` attribute whose value parses.
pub open spec fn is_file_name_candidate(a: NtfsAttribute) -> bool {
    a.attr_type == AttributeType::FileName && a.data is Resident && file_name_parses(
        resident_bytes(a),
    )
}

/// A file name candidate in the POSIX, Win32 or Win32-and-DOS namespace (not a DOS name).
pub open spec fn is_preferred_file_name(a: NtfsAttribute) -> bool {
    is_file_name_candidate(a) && (resident_bytes(a)[65] == 0 || resident_bytes(a)[65] == 1
        || resident_bytes(a)[65] == 3)
}

/// The unnamed `$DATA` attribute.
pub open spec fn is_default_data(a: NtfsAttribute) -> bool {
    a.attr_type == AttributeType::Data && a.name@.len() == 0
}

/// Index `k` is the first attribute satisfying `p`.
pub open spec fn is_first(attrs: Seq<NtfsAttribute>, k: int, p: spec_fn(NtfsAttribute) -> bool) -> bool {
    0 <= k < attrs.len() && p(attrs[k]) && forall|j: int| 0 <= j < k ==> !p(#[trigger] attrs[j])
}

/// No attribute satisfies `p`.
pub open spec fn none_is(attrs: Seq<NtfsAttribute>, p: spec_fn(NtfsAttribute) -> bool) -> bool {
    forall|j: int| 0 <= j < attrs.len() ==> !p(#[trigger] attrs[j])
}

/// The index of the attribute `file_name` decodes: the first preferred name, or failing
/// that the first name that parses.
pub open spec fn file_name_choice(attrs: Seq<NtfsAttribute>, k: int) -> bool {
    ||| is_first(attrs, k, |a: NtfsAttribute| is_preferred_file_name(a))
    ||| (none_is(attrs, |a: NtfsAttribute| is_preferred_file_name(a)) && is_first(
        attrs,
        k,
        |a: NtfsAttribute| is_file_name_candidate(a),
    ))
}

proof fn lemma_chain_next(b: Seq<u8>, o: int, rl: u32)
    requires
        0 <= o < b.len(),
        attr_step(b, o) == AttrStep::Next(rl),
    ensures
        rl > 0,
        o + rl <= b.len(),
        attr_chain(b, o) == (seq![o] + attr_chain(b, o + rl).0, attr_chain(b, o + rl).1),
{
}

impl MftRecord {
    #[verifier::loop_isolation(false)]
    #[verifier::rlimit(40)]
    pub fn parse(record_bytes: &[u8], record_number: u64, bytes_per_sector: usize) -> (r: Result<Self>)
        requires
            record_bytes@.len() >= 48 && bytes_at(record_bytes@, 0, file_magic()) && fixup_walks(
                record_bytes@,
            ) ==> bytes_per_sector >= 2,
        ensures
            mft_parse_result(r, record_bytes@, record_number, bytes_per_sector as int),
    {
        if record_bytes.len() < 48 {
            return Err(RecoveryError::BufferOutOfBounds {
                offset: 0,
                required: 48,
                available: record_bytes.len(),
            });
        }
        if !matches_at(record_bytes, 0, &MFT_RECORD_MAGIC_FILE) {
            assert(MFT_RECORD_MAGIC_FILE@ =~= file_magic());
            return Err(RecoveryError::InvalidSignature {
                expected: String::from_str("FILE"),
                found: utf8_lossy_string(&record_bytes[0..4]),
            });
        }
        assert(MFT_RECORD_MAGIC_FILE@ =~= file_magic());
        let mut fixed_buf = slice_to_vec(record_bytes);
        UsnFixup::apply_fixup(fixed_buf.as_mut_slice(), bytes_per_sector)?;
        let ghost fixed = fixed_buf@;
        let n = fixed_buf.len();
        let sequence_number = crate::endian::get_le16(fixed_buf.as_slice(), 16);
        let hard_link_count = crate::endian::get_le16(fixed_buf.as_slice(), 18);
        let first_attr_offset = crate::endian::get_le16(fixed_buf.as_slice(), 20) as usize;
        let flags = crate::endian::get_le16(fixed_buf.as_slice(), 22);
        let base_record_ref = crate::endian::get_le64(fixed_buf.as_slice(), 32);
        let is_in_use = (flags & MFT_RECORD_IN_USE) != 0;
        let is_directory = (flags & MFT_RECORD_IS_DIRECTORY) != 0;

        let mut attributes: Vec<NtfsAttribute> = Vec::new();
        let mut offset = first_attr_offset;
        let ghost start = first_attr_offset as int;
        let ghost mut offs: Seq<int> = Seq::empty();
        assert(offs + attr_chain(fixed, start).0 =~= attr_chain(fixed, start).0);
        while offset < n
            invariant
                n == fixed.len(),
                fixed_buf@ == fixed,
                attr_chain(fixed, start).1 == attr_chain(fixed, offset as int).1,
                attr_chain(fixed, start).0 == offs + attr_chain(fixed, offset as int).0,
                attributes_at(attributes@, fixed, offs),
            decreases n - offset,
        {
            let parsed = NtfsAttribute::parse(fixed_buf.as_slice(), offset);
            match parsed {
                Ok(Some(attr)) => {
                    let len = attr.record_length as usize;
                    proof {
                        lemma_chain_next(fixed, offset as int, attr.record_length);
                    }
                    if len == 0 {
                        break;
                    }
                    proof {
                        let old_offs = offs;
                        offs = offs.push(offset as int);
                        assert(old_offs + attr_chain(fixed, offset as int).0 =~= offs + attr_chain(fixed, offset + len).0);
                    }
                    let ghost old_attrs = attributes@;
                    offset = offset + len;
                    attributes.push(attr);
                    proof {
                        assert forall|k: int| 0 <= k < attributes@.len() implies attribute_fields(
                            #[trigger] attributes@[k], fixed, offs[k], le32(fixed, offs[k] + 4)) by {
                            if k < old_attrs.len() {
                                assert(attributes@[k] == old_attrs[k]);
                            }
                        }
                    }
                },
                Ok(None) => {
                    assert(offs + Seq::<int>::empty() =~= offs);
                    break;
                },
                Err(e) => {
                    return Err(e);
                },
            }
        }
        proof {
            if offset >= n {
                assert(offs + Seq::<int>::empty() =~= offs);
            }
        }
        Ok(MftRecord {
            record_number,
            sequence_number,
            hard_link_count,
            is_in_use,
            is_directory,
            base_record_ref,
            attributes,
        })
    }

    /// The standard information of the record: the first resident `$STANDARD_INFORMATION`
    /// attribute, decoded when it is long enough.
    pub fn standard_info(&self) -> (r: Option<StandardInformation>)
        ensures
            none_is(self.attributes@, |a: NtfsAttribute| is_resident_std_info(a)) ==> r is None,
            forall|k: int|
                is_first(self.attributes@, k, |a: NtfsAttribute| is_resident_std_info(a)) ==> {
                    let d = resident_bytes(#[trigger] self.attributes@[k]);
                    &&& d.len() < 36 ==> r is None
                    &&& d.len() >= 36 ==> (r matches Some(si) && si.creation_time == spec_filetime_to_datetime(
                        le64(d, 0),
                    ) && si.alteration_time == spec_filetime_to_datetime(le64(d, 8)) && si.mft_altered_time
                        == spec_filetime_to_datetime(le64(d, 16)) && si.read_time == spec_filetime_to_datetime(
                        le64(d, 24),
                    ) && si.dos_permissions == le32(d, 32))
                },
    {
        let n = self.attributes.len();
        let mut i: usize = 0;
        while i < n
            invariant
                n == self.attributes@.len(),
                i <= n,
                forall|j: int| 0 <= j < i ==> !is_resident_std_info(#[trigger] self.attributes@[j]),
            decreases n - i,
        {
            let attr = &self.attributes[i];
            if attr.attr_type == AttributeType::StandardInformation {
                if let AttributeData::Resident(bytes) = &attr.data {
                    let r = match StandardInformation::parse(bytes.as_slice()) {
                        Ok(si) => Some(si),
                        Err(_) => None,
                    };
                    proof {
                        assert forall|k: int| #![trigger self.attributes@[k]] is_first(self.attributes@, k, |a: NtfsAttribute| is_resident_std_info(a))
                            implies k == i by {
                            if k < i {
                                assert(!is_resident_std_info(self.attributes@[k]));
                            } else if k > i {
                                assert(is_resident_std_info(self.attributes@[i as int]));
                            }
                        }
                    }
                    return r;
                }
            }
            i += 1;
        }
        None
    }

    /// The record's file name: the first resident `$FILE_NAME` that decodes in the POSIX,
    /// Win32 or Win32-and-DOS namespace (preferred over 8.3 DOS names), or failing that the
    /// first that decodes.
    pub fn file_name(&self) -> (r: Option<FileNameAttribute>)
        ensures
            none_is(self.attributes@, |a: NtfsAttribute| is_file_name_candidate(a)) ==> r is None,
            r matches Some(f) ==> exists|k: int|
                file_name_choice(self.attributes@, k) && file_name_fields(
                    f,
                    resident_bytes(#[trigger] self.attributes@[k]),
                ),
            !none_is(self.attributes@, |a: NtfsAttribute| is_file_name_candidate(a)) ==> r is Some,
    {
        let mut best_fn: Option<FileNameAttribute> = None;
        let ghost mut best_k: int = -1;
        let n = self.attributes.len();
        let mut i: usize = 0;
        while i < n
            invariant
                n == self.attributes@.len(),
                i <= n,
                forall|j: int| 0 <= j < i ==> !is_preferred_file_name(#[trigger] self.attributes@[j]),
                best_fn is None ==> forall|j: int| 0 <= j < i ==> !is_file_name_candidate(#[trigger] self.attributes@[j]),
                best_fn matches Some(f) ==> 0 <= best_k < i && is_first(self.attributes@, best_k, |a: NtfsAttribute| is_file_name_candidate(a))
                    && file_name_fields(f, resident_bytes(self.attributes@[best_k])),
            decreases n - i,
        {
            let attr = &self.attributes[i];
            if attr.attr_type == AttributeType::FileName {
                if let AttributeData::Resident(bytes) = &attr.data {
                    if let Ok(fn_attr) = FileNameAttribute::parse(bytes.as_slice()) {
                        if fn_attr.namespace == 0 || fn_attr.namespace == 1 || fn_attr.namespace == 3 {
                            proof {
                                assert(is_preferred_file_name(self.attributes@[i as int]));
                                assert(file_name_choice(self.attributes@, i as int));
                            }
                            return Some(fn_attr);
                        } else if best_fn.is_none() {
                            proof {
                                best_k = i as int;
                            }
                            best_fn = Some(fn_attr);
                        }
                    }
                }
            }
            i += 1;
        }
        proof {
            if best_fn is Some {
                assert(file_name_choice(self.attributes@, best_k));
            }
        }
        best_fn
    }

    /// The unnamed `$DATA` attribute.
    pub fn data_attribute(&self) -> (r: Option<&NtfsAttribute>)
        ensures
            none_is(self.attributes@, |a: NtfsAttribute| is_default_data(a)) ==> r is None,
            r matches Some(a) ==> exists|k: int|
                is_first(self.attributes@, k, |a: NtfsAttribute| is_default_data(a)) && *a
                    == #[trigger] self.attributes@[k],
            !none_is(self.attributes@, |a: NtfsAttribute| is_default_data(a)) ==> r is Some,
    {
        let n = self.attributes.len();
        let mut i: usize = 0;
        while i < n
            invariant
                n == self.attributes@.len(),
                i <= n,
                forall|j: int| 0 <= j < i ==> !is_default_data(#[trigger] self.attributes@[j]),
            decreases n - i,
        {
            let attr = &self.attributes[i];
            if attr.attr_type == AttributeType::Data && attr.name.as_str().unicode_len() == 0 {
                assert(is_first(self.attributes@, i as int, |a: NtfsAttribute| is_default_data(a)));
                return Some(attr);
            }
            i += 1;
        }
        None
    }
}

/// The one-line description of a record: number, name, kind, size and attribute count.
pub open spec fn record_line(record_number: u64, name: Seq<char>, is_dir: bool, size: u64, attrs: nat) -> Seq<char> {
    "MFT #"@ + dec_text(record_number as nat) + ": '"@ + name + "' ["@ + (if is_dir {
        "DIR"@
    } else {
        "FILE"@
    }) + "] - Size: "@ + dec_text(size as nat) + "B (Attributes: "@ + dec_text(attrs) + ")"@
}

impl MftRecord {
    /// Describes the record on one line: its number, the name and real size of its preferred
    /// `$FILE_NAME` (`<unknown>` and 0 without one), directory or file, and how many
    /// attributes it has.
    pub fn to_string(&self) -> (r: String)
        ensures
            none_is(self.attributes@, |a: NtfsAttribute| is_file_name_candidate(a)) ==> r@ == record_line(
                self.record_number,
                "<unknown>"@,
                self.is_directory,
                0,
                self.attributes@.len(),
            ),
            !none_is(self.attributes@, |a: NtfsAttribute| is_file_name_candidate(a)) ==> exists|
                k: int,
                f: FileNameAttribute,
            |
                file_name_choice(self.attributes@, k) && #[trigger] file_name_fields(
                    f,
                    resident_bytes(self.attributes@[k]),
                ) && r@ == record_line(
                    self.record_number,
                    f.name@,
                    self.is_directory,
                    f.real_size,
                    self.attributes@.len(),
                ),
    {
        let fname = self.file_name();
        let mut s = String::from_str("MFT #");
        push_dec(&mut s, self.record_number);
        push_str(&mut s, ": '");
        match &fname {
            Some(f) => push_str(&mut s, f.name.as_str()),
            None => push_str(&mut s, "<unknown>"),
        }
        push_str(&mut s, "' [");
        if self.is_directory {
            push_str(&mut s, "DIR");
        } else {
            push_str(&mut s, "FILE");
        }
        push_str(&mut s, "] - Size: ");
        let size: u64 = match &fname {
            Some(f) => f.real_size,
            None => 0,
        };
        push_dec(&mut s, size);
        push_str(&mut s, "B (Attributes: ");
        push_dec(&mut s, self.attributes.len() as u64);
        push_str(&mut s, ")");
        proof {
            let name = match fname {
                Some(f) => f.name@,
                None => "<unknown>"@,
            };
            assert(s@ =~= record_line(self.record_number, name, self.is_directory, size, self.attributes@.len()));
        }
        s
    }
}

} // verus!
