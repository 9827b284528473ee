//! The compressed alignment container: its header and its length-prefixed
//! records.
use vstd::prelude::*;
use crate::bytes::{le_i32, le_u16, le_u32, read_i32_le, read_u16_le, read_u32_le};
use crate::record::Record;

verus! {

/// Why a container could not be read.
#[derive(Clone, Copy, Debug, PartialEq, Eq, Structural)]
pub enum DecodeError {
    /// The compressed stream could not be decompressed.
    BadCompression,
    /// The first four bytes are not the container's signature.
    BadMagic,
    /// The bytes end (or a length is negative) where a full value or region
    /// was expected.
    Truncated,
    /// A record's declared size is smaller than its fixed and variable fields.
    BadBlockSize,
}

/// The container signature: `B`, `A`, `M`, then the byte 1.
pub open spec fn magic() -> Seq<u8> {
    seq![66u8, 65u8, 77u8, 1u8]
}

/// Where the reference dictionary ends when `n` entries start at `p`; `None`
/// when the bytes end inside an entry. An entry is a 32-bit name length `l`
/// followed by `l` name bytes and a 32-bit reference length.
pub open spec fn refs_end(s: Seq<u8>, p: int, n: nat) -> Option<int>
    decreases n,
{
    if n == 0 {
        Some(p)
    } else if s.len() - p < 4 || s.len() - p - 8 < le_u32(s, p) {
        None
    } else {
        refs_end(s, p + 8 + le_u32(s, p), (n - 1) as nat)
    }
}

/// The dictionary never ends past the bytes.
proof fn lemma_refs_end_in_bounds(s: Seq<u8>, p: int, n: nat)
    requires
        0 <= p <= s.len(),
    ensures
        refs_end(s, p, n) matches Some(e) ==> p <= e <= s.len(),
    decreases n,
{
    if n > 0 && !(s.len() - p < 4 || s.len() - p - 8 < le_u32(s, p)) {
        lemma_refs_end_in_bounds(s, p + 8 + le_u32(s, p), (n - 1) as nat);
    }
}

/// Where the first record starts in the decompressed bytes `s`, or why the
/// header cannot be read.
pub open spec fn header_end(s: Seq<u8>) -> Result<int, DecodeError> {
    if s.len() < 4 {
        Err(DecodeError::Truncated)
    } else if s.take(4) != magic() {
        Err(DecodeError::BadMagic)
    } else if s.len() < 8 || le_i32(s, 4) < 0 || s.len() - 12 < le_i32(s, 4) {
        Err(DecodeError::Truncated)
    } else {
        match refs_end(s, 12 + le_i32(s, 4), le_u32(s, 8 + le_i32(s, 4)) as nat) {
            Some(p) => Ok(p),
            None => Err(DecodeError::Truncated),
        }
    }
}

/// The number of bytes that the fixed prefix and the variable fields (name,
/// CIGAR operations, packed bases, qualities) of the record body at `b` take.
pub open spec fn fields_len(s: Seq<u8>, b: int) -> int {
    32 + s[b + 8] as int + 4 * le_u16(s, b + 12) + (le_u32(s, b + 16) + 1) / 2 + le_u32(s, b + 16)
}

/// The fields kept from the record body at `b`.
pub open spec fn fields_at(s: Seq<u8>, b: int) -> Record {
    Record {
        ref_id: le_i32(s, b) as i32,
        mate_ref_id: le_i32(s, b + 20) as i32,
        tlen: le_i32(s, b + 28) as i32,
        flag: le_u16(s, b + 14) as u16,
    }
}

/// The record whose length prefix starts at `p`, with the position after it;
/// `None` at the very end of the bytes.
pub open spec fn decode_spec(s: Seq<u8>, p: int) -> Result<Option<(Record, int)>, DecodeError> {
    if p >= s.len() {
        Ok(None)
    } else if s.len() - p < 4 || s.len() - p - 4 < le_u32(s, p) {
        Err(DecodeError::Truncated)
    } else if le_u32(s, p) < fields_len(s, p + 4) {
        Err(DecodeError::BadBlockSize)
    } else {
        Ok(Some((fields_at(s, p + 4), p + 4 + le_u32(s, p))))
    }
}

/// Decodes the record whose length prefix starts at `pos`.
pub fn decode_record(b: &[u8], pos: usize) -> (r: Result<Option<(Record, usize)>, DecodeError>)
    requires
        pos <= b@.len(),
    ensures
        match r {
            Ok(None) => decode_spec(b@, pos as int) == Ok::<Option<(Record, int)>, DecodeError>(None),
            Ok(Some((rec, next))) => decode_spec(b@, pos as int) == Ok::<Option<(Record, int)>, DecodeError>(Some((rec, next as int))),
            Err(e) => decode_spec(b@, pos as int) == Err::<Option<(Record, int)>, DecodeError>(e),
        },
{
    let len = b.len();
    if pos == len {
        return Ok(None);
    }
    if len - pos < 4 {
        return Err(DecodeError::Truncated);
    }
    let block_size = read_u32_le(b, pos) as usize;
    if len - pos - 4 < block_size {
        return Err(DecodeError::Truncated);
    }
    if block_size < 32 {
        return Err(DecodeError::BadBlockSize);
    }
    let body = pos + 4;
    let ref_id = read_i32_le(b, body);
    let l_name = b[body + 8] as u64;
    let l_cigar = read_u16_le(b, body + 12) as u64;
    let flag = read_u16_le(b, body + 14);
    let l_seq = read_u32_le(b, body + 16) as u64;
    let mate_ref_id = read_i32_le(b, body + 20);
    let tlen = read_i32_le(b, body + 28);
    let used: u64 = 32 + l_name + 4 * l_cigar + (l_seq + 1) / 2 + l_seq;
    if (block_size as u64) < used {
        return Err(DecodeError::BadBlockSize);
    }
    let rec = Record { ref_id, mate_ref_id, tlen, flag };
    Ok(Some((rec, body + block_size)))
}

/// Finds where the first record starts in the decompressed bytes: checks
/// the signature, skips the header text and the reference dictionary.
pub fn parse_header(b: &[u8]) -> (r: Result<usize, DecodeError>)
    ensures
        match r {
            Ok(p) => header_end(b@) == Ok::<int, DecodeError>(p as int),
            Err(e) => header_end(b@) == Err::<int, DecodeError>(e),
        },
{
    let len = b.len();
    if len < 4 {
        return Err(DecodeError::Truncated);
    }
    if !(b[0] == 66u8 && b[1] == 65u8 && b[2] == 77u8 && b[3] == 1u8) {
        proof {
            assert(b@.take(4)[0] == b@[0]);
            assert(b@.take(4)[1] == b@[1]);
            assert(b@.take(4)[2] == b@[2]);
            assert(b@.take(4)[3] == b@[3]);
        }
        return Err(DecodeError::BadMagic);
    }
    assert(b@.take(4) =~= magic());
    if len < 12 {
        return Err(DecodeError::Truncated);
    }
    let l_text = read_i32_le(b, 4);
    if l_text < 0 || ((len - 12) as u64) < (l_text as u64) {
        return Err(DecodeError::Truncated);
    }
    let text_end = 8 + l_text as usize;
    let n_ref = read_u32_le(b, text_end);
    let mut p: usize = text_end + 4;
    let mut i: u32 = 0;
    while i < n_ref
        invariant
            p <= len,
            len == b@.len(),
            i <= n_ref,
            header_end(b@) == match refs_end(b@, p as int, (n_ref - i) as nat) {
                Some(e) => Ok::<int, DecodeError>(e),
                None => Err::<int, DecodeError>(DecodeError::Truncated),
            },
        decreases n_ref - i,
    {
        if len - p < 8 {
            return Err(DecodeError::Truncated);
        }
        let l_name = read_u32_le(b, p) as usize;
        if len - p - 8 < l_name {
            return Err(DecodeError::Truncated);
        }
        p = p + 8 + l_name;
        i = i + 1;
    }
    Ok(p)
}

/// What the gzip members of `b` decompress to, concatenated.
pub uninterp spec fn gz_members_decoded(b: Seq<u8>) -> Seq<u8>;

/// Whether every gzip member of `b` decompresses without error.
pub uninterp spec fn gz_decodes(b: Seq<u8>) -> bool;

/// Relies on flate2::read::MultiGzDecoder: read to the end, it yields the
/// decompressed bytes of every gzip member of its input, one after another,
/// or fails; both depend on the input bytes alone.
#[verifier::external_body]
fn decompress(b: &[u8]) -> (r: Option<Vec<u8>>)
    ensures
        r is Some <==> gz_decodes(b@),
        r matches Some(v) ==> v@ == gz_members_decoded(b@),
{
    let mut out: Vec<u8> = Vec::new();
    match std::io::Read::read_to_end(&mut flate2::read::MultiGzDecoder::new(b), &mut out) {
        Ok(_) => Some(out),
        Err(_) => None,
    }
}

/// A sequential reader of the records of one container.
pub struct BamReader {
    data: Vec<u8>,
    pos: usize,
}

impl BamReader {
    /// The decompressed bytes of the container.
    pub closed spec fn data(&self) -> Seq<u8> {
        self.data@
    }

    /// Where the next record's length prefix starts.
    pub closed spec fn pos(&self) -> int {
        self.pos as int
    }

    pub open spec fn wf(&self) -> bool {
        0 <= self.pos() <= self.data().len() <= usize::MAX
    }

    /// Opens already decompressed container bytes: checks the header and
    /// stands before the first record.
    pub fn from_decompressed(data: Vec<u8>) -> (r: Result<BamReader, DecodeError>)
        ensures
            match r {
                Ok(rd) => rd.wf() && rd.data() == data@ && header_end(data@) == Ok::<int, DecodeError>(rd.pos()),
                Err(e) => header_end(data@) == Err::<int, DecodeError>(e),
            },
    {
        // Records that the byte count fits in usize.
        let _len = data.len();
        match parse_header(data.as_slice()) {
            Ok(p) => {
                proof {
                    let s = data@;
                    lemma_refs_end_in_bounds(s, 12 + le_i32(s, 4), le_u32(s, 8 + le_i32(s, 4)) as nat);
                }
                Ok(BamReader { data, pos: p })
            },
            Err(e) => Err(e),
        }
    }

    /// Opens a gzip-compressed container, whose members form one stream.
    pub fn from_compressed(b: &[u8]) -> (r: Result<BamReader, DecodeError>)
        ensures
            match r {
                Ok(rd) => {
                    &&& gz_decodes(b@)
                    &&& rd.wf()
                    &&& rd.data() == gz_members_decoded(b@)
                    &&& header_end(rd.data()) == Ok::<int, DecodeError>(rd.pos())
                },
                Err(e) => (e == DecodeError::BadCompression && !gz_decodes(b@))
                    || (gz_decodes(b@) && header_end(gz_members_decoded(b@)) == Err::<int, DecodeError>(e)),
            },
    {
        match decompress(b) {
            Some(data) => BamReader::from_decompressed(data),
            None => Err(DecodeError::BadCompression),
        }
    }

    /// Reads the next record into `record`; `Ok(false)` when the bytes end
    /// exactly where a record would start.
    pub fn read_into(&mut self, record: &mut Record) -> (r: Result<bool, DecodeError>)
        requires
            old(self).wf(),
        ensures
            final(self).wf(),
            final(self).data() == old(self).data(),
            match r {
                Ok(true) => decode_spec(old(self).data(), old(self).pos())
                    == Ok::<Option<(Record, int)>, DecodeError>(Some((*final(record), final(self).pos()))),
                Ok(false) => decode_spec(old(self).data(), old(self).pos())
                    == Ok::<Option<(Record, int)>, DecodeError>(None)
                    && final(self).pos() == old(self).pos() && *final(record) == *old(record),
                Err(e) => decode_spec(old(self).data(), old(self).pos())
                    == Err::<Option<(Record, int)>, DecodeError>(e),
            },
    {
        match decode_record(self.data.as_slice(), self.pos) {
            Ok(Some((rec, next))) => {
                record.set_ref_id(rec.ref_id);
                record.set_flag(rec.flag);
                record.set_mate_ref_id(rec.mate_ref_id);
                record.set_tlen(rec.tlen);
                self.pos = next;
                Ok(true)
            },
            Ok(None) => Ok(false),
            Err(e) => Err(e),
        }
    }
}

} // verus!
