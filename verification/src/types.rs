//! Basic value types: sector sizes, byte ranges, GUIDs and NTFS timestamps.

use vstd::prelude::*;
use crate::endian::{get_le16, get_le32, le16, le32};
use crate::text::{hex_text, push_char, push_hex};
use chrono::{DateTime, TimeZone, Utc};

verus! {

/// Common disk sector sizes.
#[derive(Debug, Clone, Copy, PartialEq, Eq, Structural)]
pub enum SectorSize {
    Standard512,
    Advanced4096,
}

impl SectorSize {
    /// The number of bytes in a sector of this size.
    pub open spec fn bytes(self) -> nat {
        match self {
            SectorSize::Standard512 => 512,
            SectorSize::Advanced4096 => 4096,
        }
    }

    pub fn as_usize(self) -> (r: usize)
        ensures
            r == self.bytes(),
    {
        match self {
            SectorSize::Standard512 => 512,
            SectorSize::Advanced4096 => 4096,
        }
    }

    pub fn as_u64(self) -> (r: u64)
        ensures
            r == self.bytes(),
    {
        match self {
            SectorSize::Standard512 => 512,
            SectorSize::Advanced4096 => 4096,
        }
    }

    pub fn from_bytes(bytes: u32) -> (r: Option<Self>)
        ensures
            bytes == 512 ==> r == Some(SectorSize::Standard512),
            bytes == 4096 ==> r == Some(SectorSize::Advanced4096),
            bytes != 512 && bytes != 4096 ==> r is None,
    {
        match bytes {
            512 => Some(SectorSize::Standard512),
            4096 => Some(SectorSize::Advanced4096),
            _ => None,
        }
    }
}

/// Logical block address.
pub type Lba = u64;

/// Cluster number.
pub type Cluster = u64;

/// A byte offset together with a length.
#[derive(Debug, Clone, Copy, PartialEq, Eq, Structural)]
pub struct ByteRange {
    pub start: u64,
    pub length: u64,
}

impl ByteRange {
    pub fn new(start: u64, length: u64) -> (r: Self)
        ensures
            r.start == start,
            r.length == length,
    {
        ByteRange { start, length }
    }

    /// The offset one past the last byte of the range.
    pub fn end(&self) -> (r: u64)
        requires
            self.start + self.length <= u64::MAX,
        ensures
            r == self.start + self.length,
    {
        self.start + self.length
    }
}

/// A 128-bit GUID as stored in GPT entries and NTFS objects.
#[derive(Clone, Copy, Debug, PartialEq, Eq, Hash, Default)]
pub struct Guid {
    pub data1: u32,
    pub data2: u16,
    pub data3: u16,
    pub data4: [u8; 8],
}

/// The GUID whose mixed-endian encoding is `b[0..16]`.
pub open spec fn guid_of_bytes(b: Seq<u8>) -> Guid {
    Guid {
        data1: le32(b, 0),
        data2: le16(b, 4),
        data3: le16(b, 6),
        data4: [b[8], b[9], b[10], b[11], b[12], b[13], b[14], b[15]],
    }
}

/// The canonical text form `XXXXXXXX-XXXX-XXXX-XXXX-XXXXXXXXXXXX` of a GUID.
pub open spec fn guid_text(g: Guid) -> Seq<char> {
    hex_text(g.data1 as nat, 8) + seq!['-'] + hex_text(g.data2 as nat, 4) + seq!['-']
        + hex_text(g.data3 as nat, 4) + seq!['-'] + hex_text(g.data4[0] as nat, 2)
        + hex_text(g.data4[1] as nat, 2) + seq!['-'] + hex_text(g.data4[2] as nat, 2)
        + hex_text(g.data4[3] as nat, 2) + hex_text(g.data4[4] as nat, 2)
        + hex_text(g.data4[5] as nat, 2) + hex_text(g.data4[6] as nat, 2)
        + hex_text(g.data4[7] as nat, 2)
}

impl Guid {
    /// Whether every field of the GUID is zero.
    pub open spec fn spec_is_zero(self) -> bool {
        self.data1 == 0 && self.data2 == 0 && self.data3 == 0 && forall|i: int|
            0 <= i < 8 ==> self.data4[i] == 0
    }

    /// Whether two GUIDs hold the same fields.
    pub open spec fn same(self, other: Guid) -> bool {
        self.data1 == other.data1 && self.data2 == other.data2 && self.data3 == other.data3
            && self.data4@ == other.data4@
    }

    pub fn from_raw(data1: u32, data2: u16, data3: u16, data4: [u8; 8]) -> (r: Self)
        ensures
            r == (Guid { data1, data2, data3, data4 }),
    {
        Guid { data1, data2, data3, data4 }
    }

    pub fn from_bytes_le(bytes: &[u8]) -> (r: Option<Self>)
        ensures
            bytes@.len() < 16 ==> r is None,
            bytes@.len() >= 16 ==> r == Some(guid_of_bytes(bytes@)),
    {
        if bytes.len() < 16 {
            return None;
        }
        let data1 = get_le32(bytes, 0);
        let data2 = get_le16(bytes, 4);
        let data3 = get_le16(bytes, 6);
        let data4 = [
            bytes[8],
            bytes[9],
            bytes[10],
            bytes[11],
            bytes[12],
            bytes[13],
            bytes[14],
            bytes[15],
        ];
        Some(Guid { data1, data2, data3, data4 })
    }

    pub fn is_zero(&self) -> (r: bool)
        ensures
            r == self.spec_is_zero(),
    {
        let mut i: usize = 0;
        while i < 8
            invariant
                i <= 8,
                forall|j: int| 0 <= j < i ==> self.data4[j] == 0,
            decreases 8 - i,
        {
            if self.data4[i] != 0 {
                return false;
            }
            i += 1;
        }
        self.data1 == 0 && self.data2 == 0 && self.data3 == 0
    }

    /// Field-wise equality.
    pub fn same_as(&self, other: &Guid) -> (r: bool)
        ensures
            r == self.same(*other),
    {
        if self.data1 != other.data1 || self.data2 != other.data2 || self.data3 != other.data3 {
            return false;
        }
        let mut i: usize = 0;
        while i < 8
            invariant
                i <= 8,
                forall|j: int| 0 <= j < i ==> self.data4[j] == other.data4[j],
            decreases 8 - i,
        {
            if self.data4[i] != other.data4[i] {
                return false;
            }
            i += 1;
        }
        assert(self.data4@ =~= other.data4@);
        true
    }

    /// The canonical upper-case text form of the GUID.
    pub fn to_string(&self) -> (s: String)
        ensures
            s@ == guid_text(*self),
    {
        let mut s = String::new();
        push_hex(&mut s, self.data1 as u64, 8);
        push_char(&mut s, '-');
        push_hex(&mut s, self.data2 as u64, 4);
        push_char(&mut s, '-');
        push_hex(&mut s, self.data3 as u64, 4);
        push_char(&mut s, '-');
        push_hex(&mut s, self.data4[0] as u64, 2);
        push_hex(&mut s, self.data4[1] as u64, 2);
        push_char(&mut s, '-');
        let mut i: usize = 2;
        while i < 8
            invariant
                2 <= i <= 8,
                s@ == hex_text(self.data1 as nat, 8) + seq!['-'] + hex_text(self.data2 as nat, 4)
                    + seq!['-'] + hex_text(self.data3 as nat, 4) + seq!['-'] + hex_text(
                    self.data4[0] as nat,
                    2,
                ) + hex_text(self.data4[1] as nat, 2) + seq!['-'] + self.tail_text(i as int),
            decreases 8 - i,
        {
            push_hex(&mut s, self.data4[i] as u64, 2);
            i += 1;
        }
        proof {
            reveal_with_fuel(Guid::tail_text, 7);
        }
        assert(s@ =~= guid_text(*self));
        s
    }

    /// The hex digits of `data4[2..upto]`.
    pub open spec fn tail_text(self, upto: int) -> Seq<char>
        decreases upto,
    {
        if upto <= 2 {
            Seq::empty()
        } else {
            self.tail_text(upto - 1) + hex_text(self.data4[upto - 1] as nat, 2)
        }
    }
}

/// A UTC date and time as chrono represents it; the library only carries it through. Verus
/// cannot be told of chrono's `DateTime` type itself (its time-zone parameter is bound by a
/// chrono trait), so this wrapper is opaque to Verus.
#[verifier::external_body]
#[derive(Debug)]
pub struct UtcTime(pub DateTime<Utc>);

impl Clone for UtcTime {
    /// Copies the wrapped `DateTime` (a `Copy` type in chrono): the copy equals the value copied.
    #[verifier::external_body]
    fn clone(&self) -> (r: Self)
        ensures
            r == *self,
    {
        UtcTime(self.0)
    }
}

/// Number of 100-nanosecond intervals between 1601-01-01 and 1970-01-01.
pub const FILETIME_UNIX_EPOCH_DIFFERENCE: u64 = 116_444_736_000_000_000;

/// The UTC instant that chrono builds from whole seconds and nanoseconds since the Unix epoch.
pub uninterp spec fn utc_datetime(secs: i64, nanos: u32) -> UtcTime;

/// Calls chrono's `Utc.timestamp_opt(secs, nanos).single()`. Its source returns `Some` for
/// every second count whose day lies within chrono's year range (up to year 262142, about
/// 8.27e12 seconds after 1970) and every nanosecond count below one billion; the bound in
/// `requires` lies within that range. The value is named by `utc_datetime` of the arguments.
#[verifier::external_body]
fn utc_from_unix(secs: i64, nanos: u32) -> (r: Option<UtcTime>)
    requires
        0 <= secs <= 8_000_000_000_000,
        nanos < 1_000_000_000,
    ensures
        r == Some(utc_datetime(secs, nanos)),
{
    Utc.timestamp_opt(secs, nanos).single().map(UtcTime)
}

/// Seconds and nanoseconds since the Unix epoch of a FILETIME, when it is not before 1970:
/// the whole seconds of the 100-nanosecond intervals past the epoch, and the rest in
/// nanoseconds.
pub open spec fn filetime_unix_parts(filetime: u64) -> Option<(i64, u32)> {
    if filetime == 0 || filetime < FILETIME_UNIX_EPOCH_DIFFERENCE {
        None
    } else {
        let ticks = filetime - FILETIME_UNIX_EPOCH_DIFFERENCE;
        Some(((ticks / 10_000_000) as i64, ((ticks % 10_000_000) * 100) as u32))
    }
}

/// The date a FILETIME stands for, as `filetime_to_datetime` computes it.
pub open spec fn spec_filetime_to_datetime(filetime: u64) -> Option<UtcTime> {
    match filetime_unix_parts(filetime) {
        Some((secs, nanos)) => Some(utc_datetime(secs, nanos)),
        None => None,
    }
}

/// Converts a Windows FILETIME (100-nanosecond intervals since 1601-01-01 UTC) to a UTC date;
/// zero and instants before 1970 give `None`. Every other value, up to `u64::MAX`, gives a
/// date.
pub fn filetime_to_datetime(filetime: u64) -> (r: Option<UtcTime>)
    ensures
        r == spec_filetime_to_datetime(filetime),
        r is Some <==> filetime >= FILETIME_UNIX_EPOCH_DIFFERENCE,
{
    if filetime == 0 {
        return None;
    }
    if filetime < FILETIME_UNIX_EPOCH_DIFFERENCE {
        return None;
    }
    let ticks = filetime - FILETIME_UNIX_EPOCH_DIFFERENCE;
    let secs = (ticks / 10_000_000) as i64;
    let nsecs = ((ticks % 10_000_000) * 100) as u32;
    utc_from_unix(secs, nsecs)
}

} // verus!
