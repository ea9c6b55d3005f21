//! A length-delimited record codec: records are framed by a big-endian
//! 16-bit length field that counts the whole record, the two length bytes
//! included. The iterator walks a byte buffer and hands out one framed
//! record at a time.

use vstd::prelude::*;

verus! {

/// Why a record could not be read.
#[derive(Debug, PartialEq, Eq)]
pub enum CodecError {
    /// The length field counts itself, so a value below two frames nothing.
    BadLength,
    /// The buffer ends before the announced record does.
    Truncated,
}

/// The record length announced at `pos`: the two length bytes read as a
/// big-endian 16-bit integer.
pub open spec fn record_len_at(data: Seq<u8>, pos: int) -> int {
    256 * data[pos] + data[pos + 1]
}

/// An iterator over the length-delimited records of a byte buffer.
pub struct LengthDelimitedIter {
    data: Vec<u8>,
    pos: usize,
}

impl LengthDelimitedIter {
    /// The bytes being decoded.
    pub closed spec fn data_view(self) -> Seq<u8> {
        self.data@
    }

    /// The position of the next unread byte.
    pub closed spec fn pos_view(self) -> int {
        self.pos as int
    }

    /// Starts decoding at the beginning of the buffer.
    pub fn new(data: Vec<u8>) -> (r: LengthDelimitedIter)
        ensures
            r.data_view() == data@,
            r.pos_view() == 0,
    {
        LengthDelimitedIter { data, pos: 0 }
    }

    /// Reads the next record: the announced number of bytes, length field
    /// included. Fewer than two bytes left end the iteration; a length
    /// below two, or one overrunning the buffer, is an error and ends the
    /// iteration as well.
    #[verifier::loop_isolation(false)]
    pub fn next(&mut self) -> (r: Option<Result<Vec<u8>, CodecError>>)
        ensures
            final(self).data_view() == old(self).data_view(),
            ({
                let data = old(self).data_view();
                let pos = old(self).pos_view();
                if pos + 2 > data.len() {
                    r is None && final(self).pos_view() == data.len()
                } else {
                    let l = record_len_at(data, pos);
                    if l < 2 {
                        r == Some(Err::<Vec<u8>, CodecError>(CodecError::BadLength)) && final(self).pos_view() == data.len()
                    } else if pos + l > data.len() {
                        r == Some(Err::<Vec<u8>, CodecError>(CodecError::Truncated)) && final(self).pos_view() == data.len()
                    } else {
                        &&& r matches Some(rr)
                        &&& rr matches Ok(rec)
                        &&& rec@ == data.subrange(pos, pos + l)
                        &&& final(self).pos_view() == pos + l
                    }
                }
            }),
    {
        let len = self.data.len();
        if self.pos >= len || len - self.pos < 2 {
            self.pos = len;
            return None;
        }
        let b0 = self.data[self.pos];
        let b1 = self.data[self.pos + 1];
        let total_length: usize = 256 * (b0 as usize) + (b1 as usize);
        if total_length < 2 {
            self.pos = len;
            return Some(Err(CodecError::BadLength));
        }
        if total_length > len - self.pos {
            self.pos = len;
            return Some(Err(CodecError::Truncated));
        }
        let start = self.pos;
        let mut record: Vec<u8> = Vec::new();
        let mut i: usize = 0;
        while i < total_length
            invariant
                i <= total_length,
                start + total_length <= self.data@.len(),
                record@.len() == i,
                record@ == self.data@.subrange(start as int, start as int + i as int),
                self.data@ == old(self).data_view(),
                start == old(self).pos_view(),
            decreases total_length - i,
        {
            let b = self.data[start + i];
            record.push(b);
            proof {
                assert(record@ =~= self.data@.subrange(start as int, start as int + i as int + 1));
            }
            i = i + 1;
        }
        self.pos = start + total_length;
        Some(Ok(record))
    }
}

} // verus!
