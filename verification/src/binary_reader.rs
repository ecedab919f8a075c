//! A bounds-checked cursor over a byte slice.

use vstd::prelude::*;
use crate::endian::{
    be16, be32, be64, get_be16, get_be32, get_be64, get_le16, get_le32, get_le64, le16, le32, le64,
};
use crate::error::{out_of_bounds, RecoveryError, Result};
use crate::text::{
    class_pred, trim_end_by, trim_end_class, utf16_lossy, utf16_lossy_string, utf8_lossy,
    utf8_lossy_string, CharClass,
};
use crate::types::{guid_of_bytes, Guid};

verus! {

/// The little-endian UTF-16 code units of a byte sequence of even length.
pub open spec fn utf16_units(b: Seq<u8>) -> Seq<u16> {
    Seq::new(b.len() / 2, |i: int| le16(b, 2 * i))
}

/// The error that a read of `count` bytes at `pos` from `len` bytes gives.
pub open spec fn read_error(pos: nat, count: nat, len: nat) -> RecoveryError {
    out_of_bounds(pos as usize, count as usize, (len - pos) as usize)
}

/// The text `read_ascii_string` makes of raw bytes.
pub open spec fn ascii_text(b: Seq<u8>) -> Seq<char> {
    trim_end_by(utf8_lossy(b), class_pred(CharClass::Nul))
}

/// Safe bounds-checked binary reader over a byte slice.
pub struct BinaryReader<'a> {
    data: &'a [u8],
    cursor: usize,
}

impl<'a> BinaryReader<'a> {
    #[verifier::type_invariant]
    spec fn inv(self) -> bool {
        self.cursor <= self.data@.len()
    }

    /// The bytes the reader walks over.
    pub closed spec fn bytes(&self) -> Seq<u8> {
        self.data@
    }

    /// The cursor position.
    pub closed spec fn pos(&self) -> nat {
        self.cursor as nat
    }

    pub fn new(data: &'a [u8]) -> (r: Self)
        ensures
            r.bytes() == data@,
            r.pos() == 0,
            r.pos() <= r.bytes().len(),
    {
        BinaryReader { data, cursor: 0 }
    }

    pub fn len(&self) -> (r: usize)
        ensures
            r == self.bytes().len(),
    {
        self.data.len()
    }

    pub fn is_empty(&self) -> (r: bool)
        ensures
            r == (self.bytes().len() == 0),
    {
        self.data.len() == 0
    }

    pub fn position(&self) -> (r: usize)
        ensures
            r == self.pos(),
            r <= self.bytes().len(),
    {
        proof {
            use_type_invariant(self);
        }
        self.cursor
    }

    pub fn remaining(&self) -> (r: usize)
        ensures
            r == self.bytes().len() - self.pos(),
    {
        proof {
            use_type_invariant(self);
        }
        self.data.len() - self.cursor
    }

    pub fn seek(&mut self, pos: usize) -> (r: Result<()>)
        ensures
            final(self).bytes() == old(self).bytes(),
            final(self).pos() <= final(self).bytes().len(),
            pos <= old(self).bytes().len() ==> r is Ok && final(self).pos() == pos,
            pos > old(self).bytes().len() ==> r == Err::<(), RecoveryError>(
                out_of_bounds(pos, 0, old(self).bytes().len() as usize),
            ) && final(self).pos() == old(self).pos(),
    {
        proof {
            use_type_invariant(&*self);
        }
        if pos > self.data.len() {
            return Err(RecoveryError::BufferOutOfBounds {
                offset: pos,
                required: 0,
                available: self.data.len(),
            });
        }
        self.cursor = pos;
        Ok(())
    }

    pub fn skip(&mut self, count: usize) -> (r: Result<()>)
        requires
            old(self).pos() + count <= usize::MAX,
        ensures
            final(self).bytes() == old(self).bytes(),
            final(self).pos() <= final(self).bytes().len(),
            old(self).pos() + count <= old(self).bytes().len() ==> r is Ok && final(self).pos()
                == old(self).pos() + count,
            old(self).pos() + count > old(self).bytes().len() ==> r == Err::<(), RecoveryError>(
                out_of_bounds(
                    (old(self).pos() + count) as usize,
                    0,
                    old(self).bytes().len() as usize,
                ),
            ) && final(self).pos() == old(self).pos(),
    {
        proof {
            use_type_invariant(&*self);
        }
        let target = self.cursor + count;
        self.seek(target)
    }

    pub fn read_bytes(&mut self, count: usize) -> (r: Result<&'a [u8]>)
        ensures
            final(self).bytes() == old(self).bytes(),
            final(self).pos() <= final(self).bytes().len(),
            old(self).pos() + count <= old(self).bytes().len() ==> r is Ok && r.unwrap()@
                == old(self).bytes().subrange(
                old(self).pos() as int,
                old(self).pos() + count,
            ) && final(self).pos() == old(self).pos() + count,
            old(self).pos() + count > old(self).bytes().len() ==> r == Err::<&[u8], RecoveryError>(
                read_error(old(self).pos(), count as nat, old(self).bytes().len()),
            ) && final(self).pos() == old(self).pos(),
    {
        proof {
            use_type_invariant(&*self);
        }
        if count > self.data.len() - self.cursor {
            return Err(RecoveryError::BufferOutOfBounds {
                offset: self.cursor,
                required: count,
                available: self.data.len() - self.cursor,
            });
        }
        let slice = &self.data[self.cursor..self.cursor + count];
        self.cursor += count;
        Ok(slice)
    }

    pub fn read_u8(&mut self) -> (r: Result<u8>)
        ensures
            final(self).bytes() == old(self).bytes(),
            final(self).pos() <= final(self).bytes().len(),
            old(self).pos() + 1 <= old(self).bytes().len() ==> r == Ok::<u8, RecoveryError>(
                old(self).bytes()[old(self).pos() as int],
            ) && final(self).pos() == old(self).pos() + 1,
            old(self).pos() + 1 > old(self).bytes().len() ==> r == Err::<u8, RecoveryError>(
                read_error(old(self).pos(), 1, old(self).bytes().len()),
            ) && final(self).pos() == old(self).pos(),
    {
        let bytes = self.read_bytes(1)?;
        Ok(bytes[0])
    }

    pub fn read_u16_le(&mut self) -> (r: Result<u16>)
        ensures
            final(self).bytes() == old(self).bytes(),
            final(self).pos() <= final(self).bytes().len(),
            old(self).pos() + 2 <= old(self).bytes().len() ==> r == Ok::<u16, RecoveryError>(
                le16(old(self).bytes(), old(self).pos() as int),
            ) && final(self).pos() == old(self).pos() + 2,
            old(self).pos() + 2 > old(self).bytes().len() ==> r == Err::<u16, RecoveryError>(
                read_error(old(self).pos(), 2, old(self).bytes().len()),
            ) && final(self).pos() == old(self).pos(),
    {
        let bytes = self.read_bytes(2)?;
        Ok(get_le16(bytes, 0))
    }

    pub fn read_u32_le(&mut self) -> (r: Result<u32>)
        ensures
            final(self).bytes() == old(self).bytes(),
            final(self).pos() <= final(self).bytes().len(),
            old(self).pos() + 4 <= old(self).bytes().len() ==> r == Ok::<u32, RecoveryError>(
                le32(old(self).bytes(), old(self).pos() as int),
            ) && final(self).pos() == old(self).pos() + 4,
            old(self).pos() + 4 > old(self).bytes().len() ==> r == Err::<u32, RecoveryError>(
                read_error(old(self).pos(), 4, old(self).bytes().len()),
            ) && final(self).pos() == old(self).pos(),
    {
        let bytes = self.read_bytes(4)?;
        Ok(get_le32(bytes, 0))
    }

    pub fn read_u64_le(&mut self) -> (r: Result<u64>)
        ensures
            final(self).bytes() == old(self).bytes(),
            final(self).pos() <= final(self).bytes().len(),
            old(self).pos() + 8 <= old(self).bytes().len() ==> r == Ok::<u64, RecoveryError>(
                le64(old(self).bytes(), old(self).pos() as int),
            ) && final(self).pos() == old(self).pos() + 8,
            old(self).pos() + 8 > old(self).bytes().len() ==> r == Err::<u64, RecoveryError>(
                read_error(old(self).pos(), 8, old(self).bytes().len()),
            ) && final(self).pos() == old(self).pos(),
    {
        let bytes = self.read_bytes(8)?;
        Ok(get_le64(bytes, 0))
    }

    pub fn read_i64_le(&mut self) -> (r: Result<i64>)
        ensures
            final(self).bytes() == old(self).bytes(),
            final(self).pos() <= final(self).bytes().len(),
            old(self).pos() + 8 <= old(self).bytes().len() ==> r == Ok::<i64, RecoveryError>(
                le64(old(self).bytes(), old(self).pos() as int) as i64,
            ) && final(self).pos() == old(self).pos() + 8,
            old(self).pos() + 8 > old(self).bytes().len() ==> r == Err::<i64, RecoveryError>(
                read_error(old(self).pos(), 8, old(self).bytes().len()),
            ) && final(self).pos() == old(self).pos(),
    {
        let bytes = self.read_bytes(8)?;
        Ok(get_le64(bytes, 0) as i64)
    }

    pub fn read_u16_be(&mut self) -> (r: Result<u16>)
        ensures
            final(self).bytes() == old(self).bytes(),
            final(self).pos() <= final(self).bytes().len(),
            old(self).pos() + 2 <= old(self).bytes().len() ==> r == Ok::<u16, RecoveryError>(
                be16(old(self).bytes(), old(self).pos() as int),
            ) && final(self).pos() == old(self).pos() + 2,
            old(self).pos() + 2 > old(self).bytes().len() ==> r == Err::<u16, RecoveryError>(
                read_error(old(self).pos(), 2, old(self).bytes().len()),
            ) && final(self).pos() == old(self).pos(),
    {
        let bytes = self.read_bytes(2)?;
        Ok(get_be16(bytes, 0))
    }

    pub fn read_u32_be(&mut self) -> (r: Result<u32>)
        ensures
            final(self).bytes() == old(self).bytes(),
            final(self).pos() <= final(self).bytes().len(),
            old(self).pos() + 4 <= old(self).bytes().len() ==> r == Ok::<u32, RecoveryError>(
                be32(old(self).bytes(), old(self).pos() as int),
            ) && final(self).pos() == old(self).pos() + 4,
            old(self).pos() + 4 > old(self).bytes().len() ==> r == Err::<u32, RecoveryError>(
                read_error(old(self).pos(), 4, old(self).bytes().len()),
            ) && final(self).pos() == old(self).pos(),
    {
        let bytes = self.read_bytes(4)?;
        Ok(get_be32(bytes, 0))
    }

    pub fn read_u64_be(&mut self) -> (r: Result<u64>)
        ensures
            final(self).bytes() == old(self).bytes(),
            final(self).pos() <= final(self).bytes().len(),
            old(self).pos() + 8 <= old(self).bytes().len() ==> r == Ok::<u64, RecoveryError>(
                be64(old(self).bytes(), old(self).pos() as int),
            ) && final(self).pos() == old(self).pos() + 8,
            old(self).pos() + 8 > old(self).bytes().len() ==> r == Err::<u64, RecoveryError>(
                read_error(old(self).pos(), 8, old(self).bytes().len()),
            ) && final(self).pos() == old(self).pos(),
    {
        let bytes = self.read_bytes(8)?;
        Ok(get_be64(bytes, 0))
    }

    pub fn read_guid_le(&mut self) -> (r: Result<Guid>)
        ensures
            final(self).bytes() == old(self).bytes(),
            final(self).pos() <= final(self).bytes().len(),
            old(self).pos() + 16 <= old(self).bytes().len() ==> r == Ok::<Guid, RecoveryError>(
                guid_of_bytes(old(self).bytes().subrange(old(self).pos() as int, (old(self).pos() + 16) as int)),
            ) && final(self).pos() == old(self).pos() + 16,
            old(self).pos() + 16 > old(self).bytes().len() ==> r == Err::<Guid, RecoveryError>(
                read_error(old(self).pos(), 16, old(self).bytes().len()),
            ) && final(self).pos() == old(self).pos(),
    {
        let bytes = self.read_bytes(16)?;
        match Guid::from_bytes_le(bytes) {
            Some(g) => Ok(g),
            None => {
                proof {
                    use_type_invariant(&*self);
                }
                Err(RecoveryError::BufferOutOfBounds {
                    offset: self.cursor - 16,
                    required: 16,
                    available: 0,
                })
            },
        }
    }

    pub fn read_utf16_le_string(&mut self, char_count: usize) -> (r: Result<String>)
        requires
            2 * char_count <= usize::MAX,
        ensures
            final(self).bytes() == old(self).bytes(),
            final(self).pos() <= final(self).bytes().len(),
            old(self).pos() + 2 * char_count <= old(self).bytes().len() ==> r is Ok && r.unwrap()@
                == utf16_lossy(
                utf16_units(
                    old(self).bytes().subrange(
                        old(self).pos() as int,
                        old(self).pos() + 2 * char_count,
                    ),
                ),
            ) && final(self).pos() == old(self).pos() + 2 * char_count,
            old(self).pos() + 2 * char_count > old(self).bytes().len() ==> r == Err::<
                String,
                RecoveryError,
            >(read_error(old(self).pos(), 2 * char_count as nat, old(self).bytes().len()))
                && final(self).pos() == old(self).pos(),
    {
        let byte_count = char_count * 2;
        let bytes = self.read_bytes(byte_count)?;
        let mut units: Vec<u16> = Vec::new();
        let mut i: usize = 0;
        while i < char_count
            invariant
                i <= char_count,
                bytes@.len() == 2 * char_count,
                2 * char_count <= usize::MAX,
                units@ =~= utf16_units(bytes@).subrange(0, i as int),
            decreases char_count - i,
        {
            units.push(get_le16(bytes, 2 * i));
            i += 1;
        }
        assert(units@ =~= utf16_units(bytes@));
        Ok(utf16_lossy_string(units.as_slice()))
    }

    pub fn read_ascii_string(&mut self, length: usize) -> (r: Result<String>)
        ensures
            final(self).bytes() == old(self).bytes(),
            final(self).pos() <= final(self).bytes().len(),
            old(self).pos() + length <= old(self).bytes().len() ==> r is Ok && r.unwrap()@
                == ascii_text(
                old(self).bytes().subrange(old(self).pos() as int, old(self).pos() + length),
            ) && final(self).pos() == old(self).pos() + length,
            old(self).pos() + length > old(self).bytes().len() ==> r == Err::<String, RecoveryError>(
                read_error(old(self).pos(), length as nat, old(self).bytes().len()),
            ) && final(self).pos() == old(self).pos(),
    {
        let bytes = self.read_bytes(length)?;
        let s = utf8_lossy_string(bytes);
        Ok(trim_end_class(s.as_str(), CharClass::Nul))
    }

    /// Read bytes at an absolute offset of `data`.
    pub fn peek_bytes_at(data: &[u8], offset: usize, count: usize) -> (r: Result<&[u8]>)
        ensures
            offset + count <= data@.len() ==> r is Ok && r.unwrap()@ == data@.subrange(
                offset as int,
                offset + count,
            ),
            offset + count > data@.len() ==> r == Err::<&[u8], RecoveryError>(
                out_of_bounds(
                    offset,
                    count,
                    if data@.len() >= offset {
                        (data@.len() - offset) as usize
                    } else {
                        0
                    },
                ),
            ),
    {
        if offset > data.len() || count > data.len() - offset {
            return Err(RecoveryError::BufferOutOfBounds {
                offset,
                required: count,
                available: data.len().saturating_sub(offset),
            });
        }
        Ok(&data[offset..offset + count])
    }

    pub fn peek_u16_le_at(data: &[u8], offset: usize) -> (r: Result<u16>)
        ensures
            offset + 2 <= data@.len() ==> r == Ok::<u16, RecoveryError>(le16(data@, offset as int)),
            offset + 2 > data@.len() ==> r is Err,
    {
        let slice = Self::peek_bytes_at(data, offset, 2)?;
        Ok(get_le16(slice, 0))
    }

    pub fn peek_u32_le_at(data: &[u8], offset: usize) -> (r: Result<u32>)
        ensures
            offset + 4 <= data@.len() ==> r == Ok::<u32, RecoveryError>(le32(data@, offset as int)),
            offset + 4 > data@.len() ==> r is Err,
    {
        let slice = Self::peek_bytes_at(data, offset, 4)?;
        Ok(get_le32(slice, 0))
    }

    pub fn peek_u64_le_at(data: &[u8], offset: usize) -> (r: Result<u64>)
        ensures
            offset + 8 <= data@.len() ==> r == Ok::<u64, RecoveryError>(le64(data@, offset as int)),
            offset + 8 > data@.len() ==> r is Err,
    {
        let slice = Self::peek_bytes_at(data, offset, 8)?;
        Ok(get_le64(slice, 0))
    }

    pub fn peek_u16_be_at(data: &[u8], offset: usize) -> (r: Result<u16>)
        ensures
            offset + 2 <= data@.len() ==> r == Ok::<u16, RecoveryError>(be16(data@, offset as int)),
            offset + 2 > data@.len() ==> r is Err,
    {
        let slice = Self::peek_bytes_at(data, offset, 2)?;
        Ok(get_be16(slice, 0))
    }

    pub fn peek_u32_be_at(data: &[u8], offset: usize) -> (r: Result<u32>)
        ensures
            offset + 4 <= data@.len() ==> r == Ok::<u32, RecoveryError>(be32(data@, offset as int)),
            offset + 4 > data@.len() ==> r is Err,
    {
        let slice = Self::peek_bytes_at(data, offset, 4)?;
        Ok(get_be32(slice, 0))
    }

    pub fn peek_u64_be_at(data: &[u8], offset: usize) -> (r: Result<u64>)
        ensures
            offset + 8 <= data@.len() ==> r == Ok::<u64, RecoveryError>(be64(data@, offset as int)),
            offset + 8 > data@.len() ==> r is Err,
    {
        let slice = Self::peek_bytes_at(data, offset, 8)?;
        Ok(get_be64(slice, 0))
    }
}

} // verus!
