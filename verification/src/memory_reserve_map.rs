//! The memory reservation block: reserved physical memory regions.

use vstd::prelude::*;
use crate::blob::RsvMapReader;
use crate::model::be64;
use crate::model::spec_rsv;
use crate::model::wf_rsv;

verus! {

/// One reserved region of physical memory.
#[derive(Debug, Clone, Copy, PartialEq, Eq, Structural)]
pub struct MemoryReserveMapEntry {
    pub address: u64,
    pub size: u64,
}

/// An iterator over the entries of the memory reservation block; it
/// stops at the first all-zero pair.
#[derive(Clone, Copy)]
pub struct MemoryReserveMap<'blob> {
    pub blob: RsvMapReader<'blob>,
}

impl<'blob> MemoryReserveMap<'blob> {
    /// The block ahead of the cursor is closed by a sentinel pair.
    pub open spec fn wf(&self) -> bool {
        wf_rsv(self.blob.d@, self.blob.o as int)
    }

    /// The entries the iterator will still yield.
    pub open spec fn upcoming(&self) -> Seq<(u64, u64)> {
        spec_rsv(self.blob.d@, self.blob.o as int)
    }

    /// Wraps a reservation-block cursor.
    pub fn new(blob: RsvMapReader<'blob>) -> (r: MemoryReserveMap<'blob>)
        ensures
            r.blob == blob,
    {
        MemoryReserveMap { blob }
    }

    /// Reads the next address and size pair; the all-zero sentinel ends
    /// the iteration and is not yielded.
    pub fn next(&mut self) -> (r: Option<MemoryReserveMapEntry>)
        requires
            old(self).wf(),
        ensures
            final(self).blob.d == old(self).blob.d,
            match r {
                Some(e) => {
                    &&& old(self).upcoming().len() > 0
                    &&& e.address == old(self).upcoming()[0].0
                    &&& e.size == old(self).upcoming()[0].1
                    &&& final(self).wf()
                    &&& final(self).upcoming() == old(self).upcoming().drop_first()
                },
                None => old(self).upcoming().len() == 0,
            },
    {
        let a = self.blob.read_u64();
        let s = self.blob.read_u64();
        if a == 0 && s == 0 {
            None
        } else {
            proof {
                assert(old(self).upcoming().drop_first() =~= self.upcoming());
            }
            Some(MemoryReserveMapEntry { address: a, size: s })
        }
    }
}

/// The reservation entries are exactly the pairs that precede the first
/// all-zero pair of the block: none of them is all-zero, they sit
/// consecutively from the start offset, and the pair right after the
/// last entry is the in-bounds sentinel.
pub proof fn lemma_rsv_terminates(b: Seq<u8>, o: int)
    requires
        o >= 0,
        wf_rsv(b, o),
    ensures
        forall|i: int|
            0 <= i < spec_rsv(b, o).len() ==> #[trigger] spec_rsv(b, o)[i] == (
            be64(b, o + 16 * i),
            be64(b, o + 16 * i + 8),
            ) && spec_rsv(b, o)[i] != (0u64, 0u64),
        o + 16 * spec_rsv(b, o).len() + 16 <= b.len(),
        be64(b, o + 16 * spec_rsv(b, o).len()) == 0,
        be64(b, o + 16 * spec_rsv(b, o).len() + 8) == 0,
    decreases b.len() - o,
{
    let a = be64(b, o);
    let sz = be64(b, o + 8);
    if !(a == 0 && sz == 0) {
        lemma_rsv_terminates(b, o + 16);
        assert forall|i: int| 0 <= i < spec_rsv(b, o).len() implies #[trigger] spec_rsv(b, o)[i]
            == (be64(b, o + 16 * i), be64(b, o + 16 * i + 8)) && spec_rsv(b, o)[i] != (
        0u64,
        0u64,
        ) by {
            if i > 0 {
                assert(spec_rsv(b, o)[i] == spec_rsv(b, o + 16)[i - 1]);
                assert(o + 16 + 16 * (i - 1) == o + 16 * i);
            }
        }
    }
}

} // verus!
