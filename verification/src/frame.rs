//! The two shapes a physical frame takes in this subsystem: a table frame of
//! 512 entry words, and a data page of 4096 bytes. Both are zero-filled on
//! creation, and each is owned by exactly one table for its whole lifetime.

use vstd::prelude::*;

verus! {

/// A frame used as one level of the translation tree: 512 entry words.
pub struct Frame {
    pub entries: Vec<u64>,
}

impl Frame {
    /// Whether this frame has its full complement of entry slots.
    pub open spec fn wf(self) -> bool {
        self.entries@.len() == 512
    }

    /// A fresh table frame with every entry not present.
    pub fn zeroed() -> (r: Self)
        ensures
            r.wf(),
            forall|i: int| 0 <= i < 512 ==> r.entries@[i] == 0,
    {
        let mut entries: Vec<u64> = Vec::new();
        let mut i: usize = 0;
        while i < 512
            invariant
                i <= 512,
                entries@.len() == i,
                forall|j: int| 0 <= j < i ==> entries@[j] == 0,
            decreases 512 - i,
        {
            entries.push(0);
            i = i + 1;
        }
        Frame { entries }
    }
}

/// A frame used as backing storage for one mapped page: 4096 bytes.
pub struct Page {
    pub bytes: Vec<u8>,
}

impl Page {
    /// Whether this page holds exactly one frame's worth of bytes.
    pub open spec fn wf(self) -> bool {
        self.bytes@.len() == 4096
    }

    /// A fresh zero-filled data page.
    pub fn zeroed() -> (r: Self)
        ensures
            r.wf(),
            forall|i: int| 0 <= i < 4096 ==> r.bytes@[i] == 0,
    {
        let mut bytes: Vec<u8> = Vec::new();
        let mut i: usize = 0;
        while i < 4096
            invariant
                i <= 4096,
                bytes@.len() == i,
                forall|j: int| 0 <= j < i ==> bytes@[j] == 0,
            decreases 4096 - i,
        {
            bytes.push(0);
            i = i + 1;
        }
        Page { bytes }
    }
}

} // verus!
