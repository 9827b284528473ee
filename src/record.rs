//! The alignment fields that the insert-size statistics read.
use vstd::prelude::*;

verus! {

/// Read paired, mapped in a proper pair, mate mapped.
pub const PAIRED_PRIMARY_MASK: u16 = 0x43;

/// Secondary or supplementary alignment.
pub const SECONDARY_SUPPLEMENTARY_MASK: u16 = 0x900;

/// The scalar fields of one alignment record; everything else in the wire
/// record is skipped.
#[derive(Clone, Copy, Debug, PartialEq, Eq, Structural)]
pub struct Record {
    pub ref_id: i32,
    pub mate_ref_id: i32,
    pub tlen: i32,
    pub flag: u16,
}

/// Whether a record counts as one properly paired, primary pair on a single
/// reference.
pub open spec fn qualifies(r: Record) -> bool {
    r.flag & PAIRED_PRIMARY_MASK == PAIRED_PRIMARY_MASK
        && r.flag & SECONDARY_SUPPLEMENTARY_MASK == 0
        && r.ref_id == r.mate_ref_id
}

/// The magnitude of the template length.
pub open spec fn insert_size(r: Record) -> nat {
    if r.tlen < 0 {
        (-(r.tlen as int)) as nat
    } else {
        r.tlen as nat
    }
}

impl Default for Record {
    fn default() -> (r: Record)
        ensures
            r == (Record { ref_id: 0, mate_ref_id: 0, tlen: 0, flag: 0 }),
    {
        Record::new()
    }
}

impl Record {
    /// A record with every field zero.
    pub fn new() -> (r: Record)
        ensures
            r == (Record { ref_id: 0, mate_ref_id: 0, tlen: 0, flag: 0 }),
    {
        Record { ref_id: 0, mate_ref_id: 0, tlen: 0, flag: 0 }
    }

    pub fn flag(&self) -> (r: &u16)
        ensures
            *r == self.flag,
    {
        &self.flag
    }

    pub fn set_flag(&mut self, v: u16)
        ensures
            *final(self) == (Record { flag: v, ..*old(self) }),
    {
        self.flag = v;
    }

    pub fn tlen(&self) -> (r: &i32)
        ensures
            *r == self.tlen,
    {
        &self.tlen
    }

    pub fn set_tlen(&mut self, v: i32)
        ensures
            *final(self) == (Record { tlen: v, ..*old(self) }),
    {
        self.tlen = v;
    }

    pub fn ref_id(&self) -> (r: &i32)
        ensures
            *r == self.ref_id,
    {
        &self.ref_id
    }

    pub fn set_ref_id(&mut self, v: i32)
        ensures
            *final(self) == (Record { ref_id: v, ..*old(self) }),
    {
        self.ref_id = v;
    }

    pub fn mate_ref_id(&self) -> (r: &i32)
        ensures
            *r == self.mate_ref_id,
    {
        &self.mate_ref_id
    }

    pub fn set_mate_ref_id(&mut self, v: i32)
        ensures
            *final(self) == (Record { mate_ref_id: v, ..*old(self) }),
    {
        self.mate_ref_id = v;
    }

    /// Whether this record passes the pair filter.
    pub fn is_qualifying_pair(&self) -> (r: bool)
        ensures
            r == qualifies(*self),
    {
        self.flag & PAIRED_PRIMARY_MASK == PAIRED_PRIMARY_MASK
            && self.flag & SECONDARY_SUPPLEMENTARY_MASK == 0
            && self.ref_id == self.mate_ref_id
    }

    /// The magnitude of the template length, as an unsigned value.
    pub fn insert_size(&self) -> (r: u32)
        ensures
            r as nat == insert_size(*self),
    {
        if self.tlen < 0 {
            if self.tlen == i32::MIN {
                0x8000_0000
            } else {
                (-self.tlen) as u32
            }
        } else {
            self.tlen as u32
        }
    }
}

} // verus!
