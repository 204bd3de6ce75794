//! What holds of all address spaces together with the kernel-wide tables:
//! the reverse map, the frame allocator and the swap store.

use vstd::prelude::*;
use crate::mm::frame_allocator::StackFrameAllocator;
use crate::mm::memory_set::MemorySet;
use crate::mm::vmm::IdeManager;

verus! {

/// Whether no frame belongs to two of the spaces.
pub open spec fn owners_disjoint(spaces: Seq<MemorySet>) -> bool {
    forall|s: int, t: int, p: u64|
        0 <= s < spaces.len() && 0 <= t < spaces.len() && s != t && #[trigger] spaces[s].owns(p)
            ==> !#[trigger] spaces[t].owns(p)
}

/// Whether some space backs each frame in the reverse map with the page
/// recorded for it.
pub open spec fn reverse_map_backed(spaces: Seq<MemorySet>, p2v: Map<u64, u64>) -> bool {
    forall|p: u64| #[trigger]
        p2v.contains_key(p) ==> exists|s: int|
            0 <= s < spaces.len() && (#[trigger] spaces[s]).backs(p, p2v)
}

/// Whether each page in the swap store belongs to one of the spaces.
pub open spec fn swap_tokens_live(spaces: Seq<MemorySet>, dir: Map<(u64, u64), usize>) -> bool {
    forall|k: (u64, u64)| #[trigger]
        dir.contains_key(k) ==> exists|s: int|
            0 <= s < spaces.len() && (#[trigger] spaces[s]).spec_token() == k.0
}

/// The invariant of the memory system: each space is consistent with the
/// reverse map, owns only frames that are handed out and has no resident
/// page in the swap store; no frame has two owners; the reverse map holds
/// no entry that no space backs; and the swap store holds no page of a
/// space that is not there.
pub open spec fn system_inv(
    spaces: Seq<MemorySet>,
    p2v: Map<u64, u64>,
    alloc: StackFrameAllocator,
    swap: IdeManager,
) -> bool {
    &&& alloc.wf()
    &&& alloc.limit() <= 0x1000_0000_0000
    &&& swap.wf()
    &&& forall|s: int|
        0 <= s < spaces.len() ==> (#[trigger] spaces[s]).inv(p2v, alloc) && spaces[s].swap_free(
            swap.dir(),
        )
    &&& owners_disjoint(spaces)
    &&& reverse_map_backed(spaces, p2v)
    &&& swap_tokens_live(spaces, swap.dir())
}

/// Two page tables with the same token have the same root, where the
/// roots fit a page-table entry.
pub proof fn lemma_token_injective(a: u64, b: u64)
    requires
        a < 0x1000_0000_0000,
        b < 0x1000_0000_0000,
        (8u64 << 60) | a == (8u64 << 60) | b,
    ensures
        a == b,
{
    assert(a < 0x1000_0000_0000 && b < 0x1000_0000_0000 && (8u64 << 60) | a == (8u64 << 60) | b
        ==> a == b) by (bit_vector);
}

/// Two spaces of a system have different tokens.
pub proof fn lemma_tokens_differ(
    spaces: Seq<MemorySet>,
    p2v: Map<u64, u64>,
    alloc: StackFrameAllocator,
    swap: IdeManager,
    s: int,
    t: int,
)
    requires
        system_inv(spaces, p2v, alloc, swap),
        0 <= s < spaces.len(),
        0 <= t < spaces.len(),
        s != t,
    ensures
        spaces[s].spec_token() != spaces[t].spec_token(),
{
    let a = spaces[s].page_table.root();
    let b = spaces[t].page_table.root();
    spaces[s].page_table.lemma_tables();
    spaces[t].page_table.lemma_tables();
    assert(spaces[s].page_table.table_frames()[0] == a);
    assert(spaces[t].page_table.table_frames()[0] == b);
    assert(spaces[s].owns(a));
    assert(spaces[t].owns(b));
    assert(spaces[s].inv(p2v, alloc));
    assert(spaces[t].inv(p2v, alloc));
    spaces[s].lemma_owns_allocated(a, p2v, alloc);
    spaces[t].lemma_owns_allocated(b, p2v, alloc);
    if spaces[s].spec_token() == spaces[t].spec_token() {
        lemma_token_injective(a, b);
        assert(spaces[t].owns(a));
    }
}

/// A change of one space that keeps to what belongs to that space
/// preserves the invariant of the system.
#[verifier::rlimit(60)]
pub proof fn lemma_step(
    spaces: Seq<MemorySet>,
    s: int,
    after: MemorySet,
    p2v: Map<u64, u64>,
    p2v2: Map<u64, u64>,
    al: StackFrameAllocator,
    al2: StackFrameAllocator,
    sw: IdeManager,
    sw2: IdeManager,
)
    requires
        system_inv(spaces, p2v, al, sw),
        0 <= s < spaces.len(),
        spaces[s].stepped(after, p2v, p2v2, al, al2, sw, sw2),
        after.inv(p2v2, al2),
        after.swap_free(sw2.dir()),
    ensures
        system_inv(spaces.update(s, after), p2v2, al2, sw2),
        forall|t: int, p: u64|
            0 <= t < spaces.len() && t != s && #[trigger] spaces[t].owns(p) ==> al2.allocated(p)
                && (p2v.contains_key(p) ==> p2v2.contains_key(p) && p2v2[p] == p2v[p]),
{
    let before = spaces[s];
    let spaces2 = spaces.update(s, after);
    assert forall|t: int, p: u64| 0 <= t < spaces.len() && t != s && #[trigger] spaces[t].owns(
        p,
    ) implies al.allocated(p) && !before.owns(p) by {
        assert(spaces[t].inv(p2v, al));
        spaces[t].lemma_owns_allocated(p, p2v, al);
    }
    assert forall|t: int| 0 <= t < spaces2.len() implies (#[trigger] spaces2[t]).inv(p2v2, al2)
        && spaces2[t].swap_free(sw2.dir()) by {
        if t != s {
            let ms = spaces[t];
            assert(ms.inv(p2v, al) && ms.swap_free(sw.dir()));
            assert(ms.frames_mapped(p2v2)) by {
                assert forall|i: int, vpn: u64| #[trigger] ms.holds(i, vpn) implies {
                    let frame = ms.areas@[i].frames()[vpn];
                    let pt = ms.page_table@;
                    &&& pt.contains_key(vpn)
                    &&& pt[vpn].spec_ppn() == frame.ppn.0
                    &&& pt[vpn].spec_flags() & 0x3f == ms.areas@[i].map_perm.bits | 0x01
                    &&& p2v2.contains_key(frame.ppn.0)
                    &&& p2v2[frame.ppn.0] == vpn
                    &&& !ms.page_table.table_frames().contains(frame.ppn.0)
                } by {
                    ms.lemma_owner(i, vpn);
                    let p = ms.areas@[i].frames()[vpn].ppn.0;
                    assert(ms.owns(p));
                    assert(al.allocated(p) && !before.owns(p));
                }
            }
            assert(ms.frames_allocated(al2)) by {
                assert forall|i: int, vpn: u64| #[trigger] ms.holds(i, vpn) implies al2.allocated(
                    ms.areas@[i].frames()[vpn].ppn.0,
                ) by {
                    ms.lemma_owner(i, vpn);
                    let p = ms.areas@[i].frames()[vpn].ppn.0;
                    assert(ms.owns(p));
                    assert(al.allocated(p) && !before.owns(p));
                }
            }
            assert(ms.tables_allocated(al2)) by {
                assert forall|k: int|
                    0 <= k < ms.page_table.table_frames().len() implies al2.allocated(
                    #[trigger] ms.page_table.table_frames()[k],
                ) by {
                    let p = ms.page_table.table_frames()[k];
                    assert(ms.owns(p));
                    assert(al.allocated(p) && !before.owns(p));
                }
            }
            assert(ms.manager_tracks(p2v2)) by {
                assert forall|k: int| 0 <= k < ms.frame_manager.frames().len() implies {
                    let p = #[trigger] ms.frame_manager.frames()[k];
                    &&& p2v2.contains_key(p)
                    &&& ms.resident(p2v2[p])
                    &&& ms.frame(p2v2[p]).ppn.0 == p
                } by {
                    let p = ms.frame_manager.frames()[k];
                    assert(ms.resident(p2v[p]) && ms.frame(p2v[p]).ppn.0 == p);
                    assert(ms.owns(p));
                    assert(al.allocated(p) && !before.owns(p));
                }
            }
            lemma_tokens_differ(spaces, p2v, al, sw, s, t);
            assert forall|vpn: u64| #[trigger] ms.resident(vpn) implies !sw2.dir().contains_key(
                (ms.spec_token(), vpn),
            ) by {
                let k = (ms.spec_token(), vpn);
                assert(sw2.contents().contains_key(k) == sw.contents().contains_key(k));
            }
        }
    }
    assert(owners_disjoint(spaces2)) by {
        assert forall|a: int, b: int, p: u64|
            0 <= a < spaces2.len() && 0 <= b < spaces2.len() && a != b
                && #[trigger] spaces2[a].owns(p) implies !#[trigger] spaces2[b].owns(p) by {
            if a == s {
                if spaces[b].owns(p) {
                    assert(al.allocated(p) && !before.owns(p));
                }
            } else if b == s {
                assert(spaces[a].owns(p));
                assert(al.allocated(p) && !before.owns(p));
            } else {
                assert(spaces[a].owns(p));
            }
        }
    }
    assert(reverse_map_backed(spaces2, p2v2)) by {
        assert forall|p: u64| #[trigger] p2v2.contains_key(p) implies exists|t: int|
            0 <= t < spaces2.len() && (#[trigger] spaces2[t]).backs(p, p2v2) by {
            if after.backs(p, p2v2) {
                assert(spaces2[s].backs(p, p2v2));
            } else {
                assert(p2v.contains_key(p) && p2v2[p] == p2v[p] && !before.backs(p, p2v));
                let t = choose|t: int| 0 <= t < spaces.len() && (#[trigger] spaces[t]).backs(p, p2v);
                assert(t != s);
                assert(spaces2[t].backs(p, p2v2));
            }
        }
    }
    assert forall|t: int, p: u64|
        0 <= t < spaces.len() && t != s && #[trigger] spaces[t].owns(p) implies al2.allocated(p)
            && (p2v.contains_key(p) ==> p2v2.contains_key(p) && p2v2[p] == p2v[p]) by {
        assert(al.allocated(p) && !before.owns(p));
    }
    assert(swap_tokens_live(spaces2, sw2.dir())) by {
        assert forall|k: (u64, u64)| #[trigger] sw2.dir().contains_key(k) implies exists|t: int|
            0 <= t < spaces2.len() && (#[trigger] spaces2[t]).spec_token() == k.0 by {
            if k.0 == before.spec_token() {
                assert(spaces2[s].spec_token() == k.0);
            } else {
                assert(sw2.contents().contains_key(k) == sw.contents().contains_key(k));
                assert(sw.dir().contains_key(k));
                let t = choose|t: int|
                    0 <= t < spaces.len() && (#[trigger] spaces[t]).spec_token() == k.0;
                assert(t != s);
                assert(spaces2[t].spec_token() == k.0);
            }
        }
    }
}

/// Every frame in the reverse map backs the page recorded for it in
/// exactly one address space, whose page table translates that page to
/// the frame.
pub proof fn lemma_reverse_map_sound(
    spaces: Seq<MemorySet>,
    p2v: Map<u64, u64>,
    alloc: StackFrameAllocator,
    swap: IdeManager,
    ppn: u64,
)
    requires
        system_inv(spaces, p2v, alloc, swap),
        p2v.contains_key(ppn),
    ensures
        exists|s: int|
            0 <= s < spaces.len() && (#[trigger] spaces[s]).backs(ppn, p2v)
                && spaces[s].page_table@.contains_key(p2v[ppn])
                && spaces[s].page_table@[p2v[ppn]].spec_ppn() == ppn,
        forall|s: int, t: int|
            0 <= s < spaces.len() && 0 <= t < spaces.len() && (#[trigger] spaces[s]).backs(ppn, p2v)
                && (#[trigger] spaces[t]).backs(ppn, p2v) ==> s == t,
{
    let s = choose|s: int| 0 <= s < spaces.len() && (#[trigger] spaces[s]).backs(ppn, p2v);
    assert(spaces[s].inv(p2v, alloc));
    spaces[s].lemma_resident(p2v[ppn], p2v);
    assert forall|a: int, b: int|
        0 <= a < spaces.len() && 0 <= b < spaces.len() && (#[trigger] spaces[a]).backs(ppn, p2v)
            && (#[trigger] spaces[b]).backs(ppn, p2v) implies a == b by {
        assert(spaces[a].owns(ppn));
        assert(spaces[b].owns(ppn));
    }
}

/// No free frame stands in the reverse map.
pub proof fn lemma_free_not_in_reverse_map(
    spaces: Seq<MemorySet>,
    p2v: Map<u64, u64>,
    alloc: StackFrameAllocator,
    swap: IdeManager,
    ppn: u64,
)
    requires
        system_inv(spaces, p2v, alloc, swap),
        p2v.contains_key(ppn),
    ensures
        !alloc.free().contains(ppn),
        alloc.allocated(ppn),
{
    let s = choose|s: int| 0 <= s < spaces.len() && (#[trigger] spaces[s]).backs(ppn, p2v);
    assert(spaces[s].inv(p2v, alloc));
    assert(spaces[s].owns(ppn));
    spaces[s].lemma_owns_allocated(ppn, p2v, alloc);
    alloc.lemma_free_not_allocated();
}

/// No page is both resident and in the swap store.
pub proof fn lemma_resident_not_swapped(
    spaces: Seq<MemorySet>,
    p2v: Map<u64, u64>,
    alloc: StackFrameAllocator,
    swap: IdeManager,
    s: int,
    vpn: u64,
)
    requires
        system_inv(spaces, p2v, alloc, swap),
        0 <= s < spaces.len(),
    ensures
        !(spaces[s].resident(vpn) && swap.dir().contains_key((spaces[s].spec_token(), vpn))),
        !(spaces[s].resident(vpn) && swap.contents().contains_key((spaces[s].spec_token(), vpn))),
{
    assert(spaces[s].swap_free(swap.dir()));
}

/// Where the bytes of a page of a framed area are.
pub enum PagePlace {
    /// In a frame that the area owns.
    Resident,
    /// In a slot of the swap store.
    Swapped,
    /// Nowhere: the page was not touched since it was mapped.
    Untouched,
}

/// Whether page `vpn` of area `i` of `ms` is at `place`.
pub open spec fn page_is(ms: MemorySet, swap: IdeManager, i: int, vpn: u64, place: PagePlace) -> bool {
    match place {
        PagePlace::Resident => ms.holds(i, vpn),
        PagePlace::Swapped => swap.dir().contains_key((ms.spec_token(), vpn)),
        PagePlace::Untouched => !ms.holds(i, vpn) && !swap.dir().contains_key(
            (ms.spec_token(), vpn),
        ),
    }
}

/// A page of a framed area is resident, swapped or untouched, and never
/// two of these.
pub proof fn lemma_page_in_one_place(
    spaces: Seq<MemorySet>,
    p2v: Map<u64, u64>,
    alloc: StackFrameAllocator,
    swap: IdeManager,
    s: int,
    i: int,
    vpn: u64,
)
    requires
        system_inv(spaces, p2v, alloc, swap),
        0 <= s < spaces.len(),
        0 <= i < spaces[s].areas@.len(),
        spaces[s].areas@[i].vpn_range.contains(vpn as int),
    ensures
        page_is(spaces[s], swap, i, vpn, PagePlace::Resident) || page_is(
            spaces[s],
            swap,
            i,
            vpn,
            PagePlace::Swapped,
        ) || page_is(spaces[s], swap, i, vpn, PagePlace::Untouched),
        !(page_is(spaces[s], swap, i, vpn, PagePlace::Resident) && page_is(
            spaces[s],
            swap,
            i,
            vpn,
            PagePlace::Swapped,
        )),
        !(page_is(spaces[s], swap, i, vpn, PagePlace::Resident) && page_is(
            spaces[s],
            swap,
            i,
            vpn,
            PagePlace::Untouched,
        )),
        !(page_is(spaces[s], swap, i, vpn, PagePlace::Swapped) && page_is(
            spaces[s],
            swap,
            i,
            vpn,
            PagePlace::Untouched,
        )),
{
    let ms = spaces[s];
    assert(ms.inv(p2v, alloc) && ms.swap_free(swap.dir()));
    if ms.holds(i, vpn) {
        ms.lemma_owner(i, vpn);
    }
}

/// A page of a framed area is translated exactly where it is resident:
/// a page that was evicted, or never touched, has no translation, so the
/// next access to it faults.
pub proof fn lemma_translated_iff_resident(ms: MemorySet, p2v: Map<u64, u64>, i: int, vpn: u64)
    requires
        ms.consistent(p2v),
        0 <= i < ms.areas@.len(),
        ms.areas@[i].map_type == crate::mm::memory_set::MapType::Framed,
        ms.areas@[i].vpn_range.contains(vpn as int),
    ensures
        ms.page_table@.contains_key(vpn) == ms.resident(vpn),
        ms.resident(vpn) == ms.holds(i, vpn),
{
    if ms.resident(vpn) {
        ms.lemma_resident(vpn, p2v);
        let j = ms.owner(vpn);
        ms.lemma_owner(j, vpn);
        if i != j {
            assert(crate::mm::memory_set::ranges_disjoint(
                ms.areas@[i].vpn_range,
                ms.areas@[j].vpn_range,
            ));
        }
    }
    if ms.page_table@.contains_key(vpn) {
        assert(ms.holds(i, vpn));
    }
}

/// Whether the store `after` is the store `before` after one `swap_in` or
/// `swap_out` of a page other than `key`.
pub open spec fn moved_another(before: IdeManager, after: IdeManager, key: (u64, u64)) -> bool {
    exists|k: (u64, u64), bytes: Seq<u8>|
        k != key && (#[trigger] before.contents().insert(k, bytes) == after.contents()
            || before.contents().remove(k) == after.contents())
}

/// The store keeps a page while other pages come and go: after any
/// number of calls of `swap_in` and `swap_out` for other pages, a page is
/// in the store where it was, with the bytes it had. So `swap_out` hands
/// back what `swap_in` was given, whatever happened to other pages in
/// between.
pub proof fn lemma_store_keeps_page(stores: Seq<IdeManager>, key: (u64, u64))
    requires
        stores.len() >= 1,
        forall|i: int|
            0 <= i < stores.len() - 1 ==> moved_another(#[trigger] stores[i], stores[i + 1], key),
    ensures
        stores.last().contents().contains_key(key) == stores[0].contents().contains_key(key),
        stores[0].contents().contains_key(key) ==> stores.last().contents()[key]
            == stores[0].contents()[key],
    decreases stores.len(),
{
    if stores.len() > 1 {
        let shorter = stores.drop_last();
        assert forall|i: int| 0 <= i < shorter.len() - 1 implies moved_another(
            #[trigger] shorter[i],
            shorter[i + 1],
            key,
        ) by {
            assert(moved_another(stores[i], stores[i + 1], key));
        }
        lemma_store_keeps_page(shorter, key);
        let m = stores.len() - 2;
        assert(moved_another(stores[m], stores[m + 1], key));
        assert(shorter.last() == stores[m]);
        assert(shorter[0] == stores[0]);
    }
}

/// A page that left memory and came back holds the bytes it had: where a
/// change kept the bytes of every page (as an eviction does), and page
/// `vpn`, which was resident before it, is brought in after it, the frame
/// of the page holds what it held.
pub proof fn lemma_evict_restore(
    before: MemorySet,
    sw0: IdeManager,
    evicted: MemorySet,
    sw1: IdeManager,
    restored: MemorySet,
    vpn: u64,
)
    requires
        before.resident(vpn),
        forall|w: u64| #[trigger] evicted.content(sw1, w) == before.content(sw0, w),
        restored.resident(vpn),
        restored.frame(vpn).data@ == (match evicted.content(sw1, vpn) {
            Some(bytes) => bytes,
            None => crate::mm::frame_allocator::zero_page(),
        }),
    ensures
        restored.frame(vpn).data@ == before.frame(vpn).data@,
{
    assert(evicted.content(sw1, vpn) == before.content(sw0, vpn));
}

/// A write keeps to the space that writes: where one space of a system
/// gets other bytes in the frame of a resident page, the frame written
/// belongs to no other space, every other space is as it was, and the
/// system is a system still. So a process that was forked writes to no
/// page of its parent, and its parent to none of its own.
pub proof fn lemma_write_isolated(
    spaces: Seq<MemorySet>,
    s: int,
    after: MemorySet,
    vpn: u64,
    p2v: Map<u64, u64>,
    alloc: StackFrameAllocator,
    swap: IdeManager,
)
    requires
        system_inv(spaces, p2v, alloc, swap),
        0 <= s < spaces.len(),
        spaces[s].resident(vpn),
        spaces[s].page_written(after, vpn),
        after.areas_wf(),
    ensures
        system_inv(spaces.update(s, after), p2v, alloc, swap),
        forall|t: int|
            0 <= t < spaces.len() && t != s ==> #[trigger] spaces.update(s, after)[t] == spaces[t],
        forall|t: int, w: u64|
            0 <= t < spaces.len() && t != s && #[trigger] spaces[t].resident(w) ==> spaces[t].frame(
                w,
            ).ppn != after.frame(vpn).ppn,
{
    let before = spaces[s];
    assert(before.inv(p2v, alloc) && before.swap_free(swap.dir()));
    before.lemma_redone_of_written(after, vpn);
    before.lemma_redone(after);
    before.lemma_written_inv(after, vpn);
    lemma_step(spaces, s, after, p2v, p2v, alloc, alloc, swap, swap);
    assert forall|t: int, w: u64|
        0 <= t < spaces.len() && t != s && #[trigger] spaces[t].resident(w) implies spaces[t].frame(
        w,
    ).ppn != after.frame(vpn).ppn by {
        let p = after.frame(vpn).ppn.0;
        assert(before.frame(vpn).ppn.0 == p);
        assert(before.owns(p));
        if spaces[t].frame(w).ppn.0 == p {
            assert(spaces[t].owns(p));
        }
    }
}

/// A space that ends leaves a system behind: where the space has no
/// resident page and no page in the swap store, and the frames of its
/// page table went back to the allocator, the other spaces are a system.
#[verifier::rlimit(60)]
pub proof fn lemma_left(
    spaces: Seq<MemorySet>,
    s: int,
    p2v: Map<u64, u64>,
    al: StackFrameAllocator,
    al2: StackFrameAllocator,
    swap: IdeManager,
)
    requires
        system_inv(spaces, p2v, al, swap),
        0 <= s < spaces.len(),
        forall|w: u64| !spaces[s].resident(w),
        forall|k: (u64, u64)| #[trigger]
            swap.dir().contains_key(k) ==> k.0 != spaces[s].spec_token(),
        al2.wf(),
        al2.limit() == al.limit(),
        forall|p: u64|
            #[trigger] al2.allocated(p) == (al.allocated(p)
                && !spaces[s].page_table.table_frames().contains(p)),
    ensures
        system_inv(spaces.remove(s), p2v, al2, swap),
{
    let rest = spaces.remove(s);
    let gone = spaces[s];
    assert forall|t: int| 0 <= t < rest.len() implies (#[trigger] rest[t]).inv(p2v, al2)
        && rest[t].swap_free(swap.dir()) by {
        let u = if t < s {
            t
        } else {
            t + 1
        };
        let ms = spaces[u];
        assert(rest[t] == ms);
        assert(ms.inv(p2v, al) && ms.swap_free(swap.dir()));
        assert(ms.frames_allocated(al2)) by {
            assert forall|i: int, w: u64| #[trigger] ms.holds(i, w) implies al2.allocated(
                ms.areas@[i].frames()[w].ppn.0,
            ) by {
                ms.lemma_owner(i, w);
                let f = ms.areas@[i].frames()[w].ppn.0;
                assert(ms.owns(f));
                assert(!gone.owns(f));
            }
        }
        assert(ms.tables_allocated(al2)) by {
            assert forall|k: int| 0 <= k < ms.page_table.table_frames().len() implies al2.allocated(
                #[trigger] ms.page_table.table_frames()[k],
            ) by {
                let f = ms.page_table.table_frames()[k];
                assert(ms.page_table.table_frames().contains(f));
                assert(ms.owns(f));
                assert(!gone.owns(f));
            }
        }
    }
    assert(owners_disjoint(rest)) by {
        assert forall|a: int, b: int, p: u64|
            0 <= a < rest.len() && 0 <= b < rest.len() && a != b && #[trigger] rest[a].owns(
                p,
            ) implies !#[trigger] rest[b].owns(p) by {
            let ua = if a < s {
                a
            } else {
                a + 1
            };
            let ub = if b < s {
                b
            } else {
                b + 1
            };
            assert(rest[a] == spaces[ua] && rest[b] == spaces[ub]);
        }
    }
    assert(reverse_map_backed(rest, p2v)) by {
        assert forall|p: u64| #[trigger] p2v.contains_key(p) implies exists|t: int|
            0 <= t < rest.len() && (#[trigger] rest[t]).backs(p, p2v) by {
            let u = choose|u: int| 0 <= u < spaces.len() && (#[trigger] spaces[u]).backs(p, p2v);
            assert(spaces[u].resident(p2v[p]));
            assert(u != s);
            let t = if u < s {
                u
            } else {
                u - 1
            };
            assert(rest[t] == spaces[u]);
        }
    }
    assert(swap_tokens_live(rest, swap.dir())) by {
        assert forall|k: (u64, u64)| #[trigger] swap.dir().contains_key(k) implies exists|t: int|
            0 <= t < rest.len() && (#[trigger] rest[t]).spec_token() == k.0 by {
            let u = choose|u: int|
                0 <= u < spaces.len() && (#[trigger] spaces[u]).spec_token() == k.0;
            assert(u != s);
            let t = if u < s {
                u
            } else {
                u - 1
            };
            assert(rest[t] == spaces[u]);
        }
    }
}

/// The order of the spaces does not matter: a system whose spaces are
/// those of another, each once, is a system too.
#[verifier::rlimit(60)]
pub proof fn lemma_reordered(
    spaces: Seq<MemorySet>,
    other: Seq<MemorySet>,
    place: spec_fn(int) -> int,
    back: spec_fn(int) -> int,
    p2v: Map<u64, u64>,
    alloc: StackFrameAllocator,
    swap: IdeManager,
)
    requires
        system_inv(spaces, p2v, alloc, swap),
        other.len() == spaces.len(),
        forall|s: int|
            0 <= s < other.len() ==> 0 <= #[trigger] place(s) < spaces.len() && other[s]
                == spaces[place(s)] && back(place(s)) == s,
        forall|t: int|
            0 <= t < spaces.len() ==> 0 <= #[trigger] back(t) < other.len() && place(back(t)) == t,
    ensures
        system_inv(other, p2v, alloc, swap),
{
    assert forall|s: int| 0 <= s < other.len() implies (#[trigger] other[s]).inv(p2v, alloc)
        && other[s].swap_free(swap.dir()) by {
        assert(other[s] == spaces[place(s)]);
    }
    assert(owners_disjoint(other)) by {
        assert forall|a: int, b: int, p: u64|
            0 <= a < other.len() && 0 <= b < other.len() && a != b && #[trigger] other[a].owns(
                p,
            ) implies !#[trigger] other[b].owns(p) by {
            assert(back(place(a)) == a && back(place(b)) == b);
            assert(place(a) != place(b));
            assert(spaces[place(a)].owns(p));
        }
    }
    assert(reverse_map_backed(other, p2v)) by {
        assert forall|p: u64| #[trigger] p2v.contains_key(p) implies exists|t: int|
            0 <= t < other.len() && (#[trigger] other[t]).backs(p, p2v) by {
            let t = choose|t: int| 0 <= t < spaces.len() && (#[trigger] spaces[t]).backs(p, p2v);
            assert(place(back(t)) == t);
            assert(other[back(t)].backs(p, p2v));
        }
    }
    assert(swap_tokens_live(other, swap.dir())) by {
        assert forall|k: (u64, u64)| #[trigger] swap.dir().contains_key(k) implies exists|t: int|
            0 <= t < other.len() && (#[trigger] other[t]).spec_token() == k.0 by {
            let t = choose|t: int|
                0 <= t < spaces.len() && (#[trigger] spaces[t]).spec_token() == k.0;
            assert(place(back(t)) == t);
            assert(other[back(t)].spec_token() == k.0);
        }
    }
}

/// A space that was born beside a system joins it.
#[verifier::rlimit(60)]
pub proof fn lemma_joined(
    spaces: Seq<MemorySet>,
    child: MemorySet,
    p2v: Map<u64, u64>,
    p2v2: Map<u64, u64>,
    al: StackFrameAllocator,
    al2: StackFrameAllocator,
    swap: IdeManager,
)
    requires
        system_inv(spaces, p2v, al, swap),
        MemorySet::born(child, p2v, p2v2, al, al2),
        child.inv(p2v2, al2),
    ensures
        system_inv(spaces.push(child), p2v2, al2, swap),
        forall|s: int| 0 <= s < spaces.len() ==> (#[trigger] spaces[s]).spec_token() != child.spec_token(),
{
    let all = spaces.push(child);
    let n = spaces.len() as int;
    assert forall|t: int, p: u64| 0 <= t < n && #[trigger] spaces[t].owns(p) implies al.allocated(
        p,
    ) && !child.owns(p) by {
        assert(spaces[t].inv(p2v, al));
        spaces[t].lemma_owns_allocated(p, p2v, al);
    }
    // The root of the child is its own, so its token is new.
    let root = child.page_table.root();
    child.page_table.lemma_tables();
    assert(child.page_table.table_frames()[0] == root);
    assert(child.owns(root));
    child.lemma_owns_allocated(root, p2v2, al2);
    assert forall|s: int| 0 <= s < n implies (#[trigger] spaces[s]).spec_token()
        != child.spec_token() by {
        let a = spaces[s].page_table.root();
        spaces[s].page_table.lemma_tables();
        assert(spaces[s].page_table.table_frames()[0] == a);
        assert(spaces[s].owns(a));
        assert(spaces[s].inv(p2v, al));
        spaces[s].lemma_owns_allocated(a, p2v, al);
        if spaces[s].spec_token() == child.spec_token() {
            lemma_token_injective(a, root);
        }
    }
    assert forall|t: int| 0 <= t < all.len() implies (#[trigger] all[t]).inv(p2v2, al2)
        && all[t].swap_free(swap.dir()) by {
        if t < n {
            let ms = spaces[t];
            assert(all[t] == ms);
            assert(ms.inv(p2v, al) && ms.swap_free(swap.dir()));
            assert(ms.frames_mapped(p2v2)) by {
                assert forall|i: int, vpn: u64| #[trigger] ms.holds(i, vpn) implies {
                    let frame = ms.areas@[i].frames()[vpn];
                    let pt = ms.page_table@;
                    &&& pt.contains_key(vpn)
                    &&& pt[vpn].spec_ppn() == frame.ppn.0
                    &&& pt[vpn].spec_flags() & 0x3f == ms.areas@[i].map_perm.bits | 0x01
                    &&& p2v2.contains_key(frame.ppn.0)
                    &&& p2v2[frame.ppn.0] == vpn
                    &&& !ms.page_table.table_frames().contains(frame.ppn.0)
                } by {
                    ms.lemma_owner(i, vpn);
                    let p = ms.areas@[i].frames()[vpn].ppn.0;
                    assert(ms.owns(p));
                    assert(al.allocated(p));
                }
            }
            assert(ms.frames_allocated(al2)) by {
                assert forall|i: int, vpn: u64| #[trigger] ms.holds(i, vpn) implies al2.allocated(
                    ms.areas@[i].frames()[vpn].ppn.0,
                ) by {
                    ms.lemma_owner(i, vpn);
                    let p = ms.areas@[i].frames()[vpn].ppn.0;
                    assert(ms.owns(p));
                    assert(al.allocated(p));
                }
            }
            assert(ms.tables_allocated(al2)) by {
                assert forall|k: int|
                    0 <= k < ms.page_table.table_frames().len() implies al2.allocated(
                    #[trigger] ms.page_table.table_frames()[k],
                ) by {
                    let p = ms.page_table.table_frames()[k];
                    assert(ms.owns(p));
                    assert(al.allocated(p));
                }
            }
            assert(ms.manager_tracks(p2v2)) by {
                assert forall|k: int| 0 <= k < ms.frame_manager.frames().len() implies {
                    let p = #[trigger] ms.frame_manager.frames()[k];
                    &&& p2v2.contains_key(p)
                    &&& ms.resident(p2v2[p])
                    &&& ms.frame(p2v2[p]).ppn.0 == p
                } by {
                    let p = ms.frame_manager.frames()[k];
                    assert(ms.resident(p2v[p]) && ms.frame(p2v[p]).ppn.0 == p);
                    assert(ms.owns(p));
                    assert(al.allocated(p));
                }
            }
        } else {
            assert(all[t] == child);
            assert forall|vpn: u64| #[trigger] child.resident(vpn) implies !swap.dir().contains_key(
                (child.spec_token(), vpn),
            ) by {
                let k = (child.spec_token(), vpn);
                if swap.dir().contains_key(k) {
                    let s = choose|s: int|
                        0 <= s < spaces.len() && (#[trigger] spaces[s]).spec_token() == k.0;
                    assert(spaces[s].spec_token() != child.spec_token());
                }
            }
        }
    }
    assert(owners_disjoint(all)) by {
        assert forall|a: int, b: int, p: u64|
            0 <= a < all.len() && 0 <= b < all.len() && a != b && #[trigger] all[a].owns(
                p,
            ) implies !#[trigger] all[b].owns(p) by {
            if a < n && b < n {
                assert(spaces[a].owns(p));
            } else if a < n {
                assert(spaces[a].owns(p));
            } else {
                if all[b].owns(p) {
                    assert(spaces[b].owns(p));
                }
            }
        }
    }
    assert(reverse_map_backed(all, p2v2)) by {
        assert forall|p: u64| #[trigger] p2v2.contains_key(p) implies exists|t: int|
            0 <= t < all.len() && (#[trigger] all[t]).backs(p, p2v2) by {
            if child.backs(p, p2v2) {
                assert(all[n].backs(p, p2v2));
            } else {
                let t = choose|t: int| 0 <= t < spaces.len() && (#[trigger] spaces[t]).backs(p, p2v);
                assert(all[t].backs(p, p2v2));
            }
        }
    }
    assert(swap_tokens_live(all, swap.dir())) by {
        assert forall|k: (u64, u64)| #[trigger] swap.dir().contains_key(k) implies exists|t: int|
            0 <= t < all.len() && (#[trigger] all[t]).spec_token() == k.0 by {
            let t = choose|t: int|
                0 <= t < spaces.len() && (#[trigger] spaces[t]).spec_token() == k.0;
            assert(all[t].spec_token() == k.0);
        }
    }
}

} // verus!
