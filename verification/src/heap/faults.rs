//! What the checks say of a page or a queue that is not in order.
use vstd::prelude::*;

use super::check::{member_fault, some_slice_free, walk_fault};
use crate::bins::{bin_bytes, bin_kind, first_block, page_blocks, PageKind};
use crate::model::PageQueue;
use crate::page::{flagged_full, header, header_fault, is_block, list_fault, page_fault, Page};
use crate::slices::SliceModel;

verus! {

/// Bytes of a page with this kind byte.
pub open spec fn bytes_of_kind(kind: int) -> int {
    if kind == 0 {
        65536
    } else if kind == 1 {
        262144
    } else {
        4194304
    }
}

/// The header agrees with its bin in the kind of page, the size of the blocks and where they are.
pub open spec fn agrees_with_bin(h: Page) -> bool {
    let b = h.bin as int;
    &&& h.kind < 3
    &&& 1 <= b <= 60
    &&& h.kind == 0 <==> bin_kind(b) is Small
    &&& h.kind == 1 <==> bin_kind(b) is Medium
    &&& h.block_size == bin_bytes(b)
    &&& h.block_start == first_block(bin_bytes(b))
    &&& h.reserved == page_blocks(bin_kind(b), bin_bytes(b))
}

/// A header is refused for the first thing that is wrong with it.
pub proof fn law_headers_are_refused_for_their_first_fault(h: Page, p: int)
    ensures
        ({
            let b = h.bin as int;
            let fault = header_fault(h, p);
            let kind = match bin_kind(b) {
                PageKind::Small => 0int,
                PageKind::Medium => 1,
                PageKind::Large => 2,
            };
            let binned = h.kind <= 2 && b > 0 && b <= 60;
            &&& h.kind > 2 ==> fault == Some("kind byte is not a PageKind"@)
            &&& h.kind <= 2 && (b == 0 || b > 60) ==> fault == Some("bin out of range"@)
            &&& binned && h.kind != kind ==> fault == Some("kind does not match bin"@)
            &&& binned && h.kind == kind && h.block_size != bin_bytes(b) ==> fault == Some(
                "block_size does not match bin"@,
            )
            &&& binned && h.kind == kind && h.block_size == bin_bytes(b) && h.block_start
                != first_block(h.block_size as int) ==> fault == Some(
                "block_start does not match block_size"@,
            )
            &&& binned && h.kind == kind && h.block_size == bin_bytes(b) && h.block_start
                == first_block(h.block_size as int) && h.reserved != page_blocks(
                bin_kind(b),
                h.block_size as int,
            ) ==> fault == Some("reserved does not match page geometry"@)
            &&& agrees_with_bin(h) && p % bytes_of_kind(h.kind as int) != 0 ==> fault == Some(
                "page address is not aligned to its kind"@,
            )
            &&& agrees_with_bin(h) && p % bytes_of_kind(h.kind as int) == 0 && h.capacity
                > h.reserved ==> fault == Some("capacity exceeds reserved"@)
            &&& agrees_with_bin(h) && p % bytes_of_kind(h.kind as int) == 0 && h.used > h.capacity
                && h.capacity <= h.reserved ==> fault == Some("used exceeds capacity"@)
            &&& fault is None <==> agrees_with_bin(h) && p % bytes_of_kind(h.kind as int) == 0
                && h.used <= h.capacity <= h.reserved
        }),
{
}

/// The first `n` links of a free list: blocks of the page, each holding the address of the next.
pub open spec fn links(w: Map<int, u64>, p: int, h: Page, l: Seq<int>, n: int) -> bool {
    &&& 0 <= n < l.len()
    &&& l[0] == h.free
    &&& forall|i: int|
        0 <= i < n ==> {
            &&& (#[trigger] l[i]) != 0
            &&& is_block(p, h, h.capacity as int, l[i])
        }
    &&& forall|i: int, j: int| 0 <= i < n && j == i + 1 ==> #[trigger] l[j] == w[
        #[trigger] l[i]] as usize
}

/// A free list is followed as long as it leads to blocks of the page, and is refused where it stops
/// to, where it goes on beyond the blocks that are not in use, or where it ends before.
pub proof fn law_lists_are_refused_where_they_go_wrong(
    w: Map<int, u64>,
    p: int,
    h: Page,
    l: Seq<int>,
    n: int,
)
    requires
        h == header(w, p),
        header_fault(h, p) is None,
        links(w, p, h, l, n),
        n <= h.capacity - h.used,
    ensures
        l[n] == 0 && n == h.capacity - h.used ==> page_fault(w, p) is None,
        l[n] == 0 && n < h.capacity - h.used ==> page_fault(w, p) == Some(
            "used + free list length != capacity"@,
        ),
        l[n] != 0 && n == h.capacity - h.used ==> page_fault(w, p) == Some(
            "free list longer than capacity - used (cycle or lost block)"@,
        ),
        l[n] != 0 && n < h.capacity - h.used && !is_block(p, h, h.capacity as int, l[n])
            ==> page_fault(w, p) == Some(
            "free link outside the initialised block area or misaligned"@,
        ),
{
    lemma_followed(w, p, h, l, n);
}

proof fn lemma_followed(w: Map<int, u64>, p: int, h: Page, l: Seq<int>, n: int)
    requires
        links(w, p, h, l, n),
        n <= h.capacity - h.used,
    ensures
        list_fault(w, p, h, h.free as int, 0) == list_fault(w, p, h, l[n], n),
    decreases n,
{
    if n > 0 {
        lemma_followed(w, p, h, l, n - 1);
        assert(l[n - 1] != 0);
        assert(l[n] == w[l[n - 1]] as usize);
    }
}

/// A member of a queue is refused for the first thing that is wrong with it: its link back, where
/// it lies, the page itself, the queue it is in, or its slices if they are looked at.
pub proof fn law_members_are_refused_for_their_first_fault(
    w: Map<int, u64>,
    sm: SliceModel,
    qi: int,
    slices: bool,
    p: int,
    prev: int,
)
    ensures
        ({
            let h = header(w, p);
            let fault = member_fault(w, sm, qi, slices, p, prev);
            let placed = h.prev == prev && p % bytes_of_kind(h.kind as int) == 0;
            let sound = placed && page_fault(w, p) is None;
            let roomy = h.free != 0 || h.capacity < h.reserved;
            let full = flagged_full(h);
            let parked = qi == 61;
            &&& h.prev != prev ==> fault == Some("prev link does not point at the previous member"@)
            &&& h.prev == prev && !placed ==> fault == Some(
                "page address is not aligned to its kind"@,
            )
            &&& placed && !sound ==> fault == page_fault(w, p)
            &&& sound && parked && !full ==> fault == Some("full-queue member is not flagged full"@)
            &&& sound && parked && full && roomy ==> fault == Some(
                "full-queue member still has room"@,
            )
            &&& sound && !parked && h.bin != qi ==> fault == Some(
                "page sits in the queue of another bin"@,
            )
            &&& sound && !parked && h.bin == qi && full ==> fault == Some(
                "bin-queue member is flagged full"@,
            )
            &&& sound && (parked ==> full && !roomy) && (!parked ==> h.bin == qi && !full) ==> {
                if slices && some_slice_free(sm, p, bytes_of_kind(h.kind as int)) {
                    fault == Some("a slice of a live page is free in the map"@)
                } else {
                    fault is None
                }
            }
        }),
{
}

/// The first `n` members of a queue: each linked to the next, and none with a fault.
pub open spec fn sound_members(
    w: Map<int, u64>,
    sm: SliceModel,
    q: PageQueue,
    qi: int,
    slices: bool,
    l: Seq<int>,
    n: int,
) -> bool {
    &&& 0 <= n < l.len()
    &&& l[0] == q.first
    &&& forall|i: int| 0 <= i < n ==> #[trigger] l[i] != 0
    &&& forall|i: int, j: int|
        0 <= i < n && j == i + 1 ==> #[trigger] l[j] == header(w, #[trigger] l[i]).next
    &&& n > 0 ==> member_fault(w, sm, qi, slices, l[0], 0) is None
    &&& forall|i: int, j: int|
        0 <= i && j == i + 1 && j < n ==> member_fault(
            w,
            sm,
            qi,
            slices,
            #[trigger] l[j],
            #[trigger] l[i],
        ) is None
}

/// A queue is followed from its first member on, and is refused at the first member with a fault,
/// where it goes on beyond its count, or where it ends with another member than its last or after
/// another number of them than its count.
pub proof fn law_queues_are_refused_where_they_go_wrong(
    w: Map<int, u64>,
    sm: SliceModel,
    q: PageQueue,
    qi: int,
    slices: bool,
    l: Seq<int>,
    n: int,
)
    requires
        sound_members(w, sm, q, qi, slices, l, n),
        n <= q.count + 1,
    ensures
        ({
            let fault = walk_fault(w, sm, q, qi, slices, q.first as int, 0, 0);
            let prev = if n == 0 {
                0
            } else {
                l[n - 1]
            };
            let wrong = member_fault(w, sm, qi, slices, l[n], prev);
            &&& l[n] == 0 && q.last != prev ==> fault == Some(
                "last does not point at the final member"@,
            )
            &&& l[n] == 0 && q.last == prev && q.count != n ==> fault == Some(
                "count does not match the members"@,
            )
            &&& l[n] == 0 && q.last == prev && q.count == n ==> fault is None
            &&& l[n] != 0 && n == q.count + 1 ==> fault == Some(
                "queue longer than its count (cycle or lost page)"@,
            )
            &&& l[n] != 0 && n <= q.count && wrong is Some ==> fault == wrong
        }),
{
    lemma_members(w, sm, q, qi, slices, l, n);
}

proof fn lemma_members(
    w: Map<int, u64>,
    sm: SliceModel,
    q: PageQueue,
    qi: int,
    slices: bool,
    l: Seq<int>,
    n: int,
)
    requires
        sound_members(w, sm, q, qi, slices, l, n),
        n <= q.count + 1,
    ensures
        walk_fault(w, sm, q, qi, slices, q.first as int, 0, 0) == walk_fault(
            w,
            sm,
            q,
            qi,
            slices,
            l[n],
            if n == 0 {
                0
            } else {
                l[n - 1]
            },
            n,
        ),
    decreases n,
{
    if n > 0 {
        lemma_members(w, sm, q, qi, slices, l, n - 1);
        assert(l[n - 1] != 0);
        assert(l[n] == header(w, l[n - 1]).next);
        if n > 1 {
            assert(member_fault(w, sm, qi, slices, l[n - 1], l[n - 2]) is None);
        }
    }
}

} // verus!
