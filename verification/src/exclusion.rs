//! The exclusion index.
//!
//! Hashing every file under the negative roots yields a set of
//! (size, digest) pairs. A positive-side file whose size and digest
//! both appear here has a counterpart in the negative set and must not
//! be reported in any bin. A negative-side file that could not be read
//! is simply absent: exclusion is best effort and never a reason to
//! abort.

use vstd::prelude::*;

use crate::order::digest_eq;

verus! {

/// One hashed file of the negative set: its byte length and the
/// digest of its content.
pub struct ExclusionEntry {
    pub size: u64,
    pub digest: Vec<u8>,
}

/// The set of (size, digest) pairs seen under the negative roots.
pub struct ExclusionIndex {
    pub entries: Vec<ExclusionEntry>,
}

impl ExclusionIndex {
    /// True when some negative-side file had this size and digest.
    pub open spec fn excludes(self, size: u64, digest: Seq<u8>) -> bool {
        exists|i: int|
            0 <= i < self.entries@.len() && (#[trigger] self.entries@[i]).size == size
                && self.entries@[i].digest@ == digest
    }

    /// An index that excludes nothing.
    pub fn new() -> (r: ExclusionIndex)
        ensures
            forall|s: u64, d: Seq<u8>| !r.excludes(s, d),
    {
        ExclusionIndex { entries: Vec::new() }
    }

    /// Records one hashed negative-side file.
    pub fn add(&mut self, size: u64, digest: Vec<u8>)
        ensures
            forall|s: u64, d: Seq<u8>|
                final(self).excludes(s, d) <==> (old(self).excludes(s, d) || (s == size && d
                    == digest@)),
    {
        let ghost old_entries = self.entries@;
        let ghost new_entry = ExclusionEntry { size, digest };
        self.entries.push(ExclusionEntry { size, digest });
        proof {
            let es = self.entries@;
            assert(es == old_entries.push(new_entry));
            assert forall|s: u64, d: Seq<u8>|
                self.excludes(s, d) == (old(self).excludes(s, d) || (s == size && d
                    == digest@)) by {
                if self.excludes(s, d) {
                    let w = choose|w: int|
                        0 <= w < es.len() && (#[trigger] es[w]).size == s && es[w].digest@ == d;
                    if w < old_entries.len() {
                        assert(old_entries[w] == es[w]);
                    } else {
                        assert(es[w] == new_entry);
                    }
                }
                if old(self).excludes(s, d) {
                    let w = choose|w: int|
                        0 <= w < old_entries.len() && (#[trigger] old_entries[w]).size == s
                            && old_entries[w].digest@ == d;
                    assert(es[w] == old_entries[w]);
                }
                if s == size && d == digest@ {
                    assert(es[es.len() - 1] == new_entry);
                }
            }
        }
    }

    /// Tests whether this size and digest were seen in the negative
    /// set.
    pub fn contains(&self, size: u64, digest: &Vec<u8>) -> (r: bool)
        ensures
            r == self.excludes(size, digest@),
    {
        let n = self.entries.len();
        let mut i: usize = 0;
        while i < n
            invariant
                n == self.entries@.len(),
                i <= n,
                forall|m: int|
                    0 <= m < i ==> !((#[trigger] self.entries@[m]).size == size
                        && self.entries@[m].digest@ == digest@),
            decreases n - i,
        {
            if self.entries[i].size == size && digest_eq(&self.entries[i].digest, digest) {
                return true;
            }
            i = i + 1;
        }
        false
    }
}

} // verus!
