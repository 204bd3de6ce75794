//! The swap device: a fixed run of page-sized slots.

use vstd::prelude::*;
use crate::config::MAX_PAGES;

verus! {

/// Bytes on the device: `MAX_PAGES` slots of one page each.
pub const IDE_SIZE: usize = 10_383_360;

/// The device's storage.
pub struct Ide {
    data: Vec<u8>,
}

impl Ide {
    /// The device holds exactly `IDE_SIZE` bytes.
    pub closed spec fn wf(self) -> bool {
        self.data@.len() == IDE_SIZE
    }

    /// The bytes of slot `idx`.
    pub closed spec fn page(self, idx: int) -> Seq<u8> {
        self.data@.subrange(idx * 4096, idx * 4096 + 4096)
    }

    /// A device of zero bytes.
    pub fn new() -> (r: Ide)
        ensures
            r.wf(),
            forall|idx: int| 0 <= idx < MAX_PAGES ==> #[trigger] r.page(idx) == Seq::new(
                4096,
                |i: int| 0u8,
            ),
    {
        let mut data: Vec<u8> = Vec::new();
        let mut i: usize = 0;
        while i < IDE_SIZE
            invariant
                i <= IDE_SIZE,
                data@.len() == i,
                forall|j: int| 0 <= j < i ==> data@[j] == 0u8,
            decreases IDE_SIZE - i,
        {
            data.push(0u8);
            i = i + 1;
        }
        let r = Ide { data };
        proof {
            assert forall|idx: int| 0 <= idx < MAX_PAGES implies #[trigger] r.page(idx)
                == Seq::new(4096, |i: int| 0u8) by {
                assert(r.page(idx) =~= Seq::new(4096, |i: int| 0u8));
            }
        }
        r
    }
}

/// Whether `idx` names a slot of the device.
pub fn ide_valid(idx: usize) -> (r: bool)
    ensures
        r == (idx < MAX_PAGES),
{
    idx < MAX_PAGES
}

/// Reads slot `idx` into `dst`. Returns 0, or 1 without touching `dst` where
/// `idx` names no slot.
pub fn ide_read(ide: &Ide, idx: usize, dst: &mut Vec<u8>) -> (r: usize)
    requires
        ide.wf(),
        idx < MAX_PAGES ==> old(dst)@.len() == 4096,
    ensures
        r == (if idx < MAX_PAGES { 0usize } else { 1usize }),
        final(dst)@.len() == old(dst)@.len(),
        idx < MAX_PAGES ==> final(dst)@ == ide.page(idx as int),
        idx >= MAX_PAGES ==> final(dst)@ == old(dst)@,
{
    if !ide_valid(idx) {
        return 1;
    }
    let base: usize = idx * 4096;
    let mut i: usize = 0;
    while i < 4096
        invariant
            i <= 4096,
            ide.wf(),
            idx < MAX_PAGES,
            base == idx * 4096,
            dst@.len() == 4096,
            forall|j: int| 0 <= j < i ==> dst@[j] == ide.data@[base + j],
        decreases 4096 - i,
    {
        dst[i] = ide.data[base + i];
        i = i + 1;
    }
    assert(dst@ =~= ide.page(idx as int));
    0
}

/// Writes `src` to slot `idx`. Returns 0, or 1 without writing where `idx`
/// names no slot. No other slot changes.
pub fn ide_write(ide: &mut Ide, idx: usize, src: &[u8]) -> (r: usize)
    requires
        old(ide).wf(),
        idx < MAX_PAGES ==> src@.len() == 4096,
    ensures
        final(ide).wf(),
        r == (if idx < MAX_PAGES { 0usize } else { 1usize }),
        idx < MAX_PAGES ==> final(ide).page(idx as int) == src@,
        forall|other: int|
            0 <= other < MAX_PAGES && other != idx ==> #[trigger] final(ide).page(other) == old(
                ide,
            ).page(other),
        idx >= MAX_PAGES ==> *final(ide) == *old(ide),
{
    if !ide_valid(idx) {
        return 1;
    }
    let ghost before = *ide;
    let base: usize = idx * 4096;
    let mut i: usize = 0;
    while i < 4096
        invariant
            i <= 4096,
            ide.wf(),
            idx < MAX_PAGES,
            base == idx * 4096,
            src@.len() == 4096,
            forall|j: int| 0 <= j < i ==> ide.data@[base + j] == src@[j],
            forall|k: int|
                0 <= k < IDE_SIZE && !(base <= k < base + 4096) ==> ide.data@[k] == before.data@[k],
        decreases 4096 - i,
    {
        ide.data[base + i] = src[i];
        i = i + 1;
    }
    proof {
        assert(ide.page(idx as int) =~= src@);
        assert forall|other: int| 0 <= other < MAX_PAGES && other != idx implies #[trigger] ide.page(
            other,
        ) == before.page(other) by {
            assert(ide.page(other) =~= before.page(other));
        }
    }
    0
}

/// A probe of the device: sets the first byte of slot 0 to one and reads
/// it back. Returns the byte read.
pub fn ide_test(ide: &mut Ide) -> (r: u8)
    requires
        old(ide).wf(),
    ensures
        final(ide).wf(),
        r == 1,
        final(ide).page(0) == old(ide).page(0).update(0, 1u8),
        forall|other: int|
            1 <= other < MAX_PAGES ==> #[trigger] final(ide).page(other) == old(ide).page(other),
{
    let ghost before = *ide;
    ide.data[0] = 1;
    proof {
        assert(ide.page(0) =~= before.page(0).update(0, 1u8));
        assert forall|other: int| 1 <= other < MAX_PAGES implies #[trigger] ide.page(other)
            == before.page(other) by {
            assert(ide.page(other) =~= before.page(other));
        }
    }
    ide.data[0]
}

} // verus!
