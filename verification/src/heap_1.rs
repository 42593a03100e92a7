//! The simplest heap: blocks are carved one after another from a fixed
//! region and never given back.
#![allow(non_snake_case)]
use vstd::prelude::*;
use crate::config::{configTOTAL_HEAP_SIZE, portBYTE_ALIGNMENT, portBYTE_ALIGNMENT_MASK};

verus! {

/// The bytes of the region that blocks may use: the region less one
/// alignment unit.
pub const configADJUSTED_HEAP_SIZE: usize = configTOTAL_HEAP_SIZE - portBYTE_ALIGNMENT;

/// The heap region's bookkeeping: the offset of its next free byte.
pub struct HeapState {
    pub next_free_byte: usize,
}

impl HeapState {
    /// No byte given out past the usable region.
    pub open spec fn wf(&self) -> bool {
        self.next_free_byte <= configADJUSTED_HEAP_SIZE
    }

    /// A region with nothing given out.
    pub fn new() -> (h: HeapState)
        ensures
            h.wf(),
            h.next_free_byte == 0,
    {
        HeapState { next_free_byte: 0 }
    }
}

/// The size a request for `wanted` bytes takes: padded by the alignment
/// unit less the masked bits when any bit of the mask is set.
pub open spec fn adjusted_size(wanted: usize) -> int {
    if wanted & portBYTE_ALIGNMENT_MASK != 0 {
        wanted + portBYTE_ALIGNMENT - (wanted & portBYTE_ALIGNMENT_MASK)
    } else {
        wanted as int
    }
}

/// Gives out a block of `wanted_size` bytes (padded as `adjusted_size`
/// says) and returns its offset in the region, or `None` when the padded
/// size is zero or does not fit in what is left.
pub fn pvPortMalloc(h: &mut HeapState, wanted_size: usize) -> (r: Option<usize>)
    requires
        old(h).wf(),
        wanted_size <= usize::MAX - configTOTAL_HEAP_SIZE,
    ensures
        final(h).wf(),
        ({
            let next = old(h).next_free_byte;
            let size = adjusted_size(wanted_size);
            if next + size <= configADJUSTED_HEAP_SIZE && size > 0 {
                r == Some(next) && final(h).next_free_byte == next + size
            } else {
                r is None && *final(h) == *old(h)
            }
        }),
{
    let mut adjusted_size: usize = wanted_size;
    let masked: usize = adjusted_size & portBYTE_ALIGNMENT_MASK;
    assert(masked <= 4) by (bit_vector)
        requires
            masked == adjusted_size & 4usize,
    ;
    if masked != 0 {
        adjusted_size = adjusted_size + (portBYTE_ALIGNMENT - masked);
    }
    let next_free_byte = h.next_free_byte;
    let mut pv_return: Option<usize> = None;
    if next_free_byte + adjusted_size <= configADJUSTED_HEAP_SIZE && next_free_byte + adjusted_size
        > next_free_byte {
        pv_return = Some(next_free_byte);
        h.next_free_byte = next_free_byte + adjusted_size;
    }
    pv_return
}

/// Blocks are never given back: freeing does nothing.
pub fn vPortFree(h: &mut HeapState, pv: Option<usize>)
    ensures
        *final(h) == *old(h),
{
}

/// Gives the whole region back.
pub fn vPortInitialiseBlocks(h: &mut HeapState)
    ensures
        final(h).wf(),
        final(h).next_free_byte == 0,
{
    h.next_free_byte = 0;
}

/// The number of bytes not yet given out.
pub fn xPortGetFreeHeapSize(h: &HeapState) -> (r: usize)
    requires
        h.wf(),
    ensures
        r == configADJUSTED_HEAP_SIZE - h.next_free_byte,
{
    configADJUSTED_HEAP_SIZE - h.next_free_byte
}

/// Blocks given out one after another do not overlap and stay inside the
/// usable region: the second starts where the first ends.
pub proof fn law_blocks_disjoint(h0: HeapState, w1: usize, w2: usize)
    requires
        h0.wf(),
        h0.next_free_byte + adjusted_size(w1) <= configADJUSTED_HEAP_SIZE,
        adjusted_size(w1) > 0,
        h0.next_free_byte + adjusted_size(w1) + adjusted_size(w2) <= configADJUSTED_HEAP_SIZE,
        adjusted_size(w2) > 0,
    ensures
        ({
            let a1 = h0.next_free_byte as int;
            let a2 = a1 + adjusted_size(w1);
            &&& a1 + adjusted_size(w1) <= a2
            &&& a2 + adjusted_size(w2) <= configADJUSTED_HEAP_SIZE
            &&& adjusted_size(w1) >= w1
            &&& adjusted_size(w2) >= w2
        }),
{
    lemma_adjusted_at_least(w1);
    lemma_adjusted_at_least(w2);
}

/// A request for `w` bytes is granted at offset `next`: its padded size is
/// not zero and fits in what is left.
pub open spec fn granted(next: int, w: usize) -> bool {
    next + adjusted_size(w) <= configADJUSTED_HEAP_SIZE && adjusted_size(w) > 0
}

/// The bytes that the granted ones of the requests `ws`, made one after
/// another from offset `next`, take (padded sizes; refused requests take
/// nothing).
pub open spec fn consumed(next: int, ws: Seq<usize>) -> int
    decreases ws.len(),
{
    if ws.len() == 0 {
        0
    } else {
        let take = if granted(next, ws[0]) {
            adjusted_size(ws[0])
        } else {
            0
        };
        take + consumed(next + take, ws.drop_first())
    }
}

/// The free size counts down by what is given out: from a fresh region,
/// after requests `ws` answered one by one (`hs[i + 1]` being `hs[i]` after
/// `pvPortMalloc` of `ws[i]`), the free size is the usable region less the
/// padded sizes of the granted requests.
pub proof fn law_free_size(hs: Seq<HeapState>, ws: Seq<usize>)
    requires
        hs.len() == ws.len() + 1,
        hs[0].next_free_byte == 0,
        forall|i: int|
            0 <= i < ws.len() ==> #[trigger] hs[i + 1].next_free_byte == (if granted(
                hs[i].next_free_byte as int,
                ws[i],
            ) {
                hs[i].next_free_byte + adjusted_size(ws[i])
            } else {
                hs[i].next_free_byte as int
            }),
    ensures
        configADJUSTED_HEAP_SIZE - hs.last().next_free_byte == configADJUSTED_HEAP_SIZE - consumed(0, ws),
{
    lemma_run_consumed(hs, ws);
}

/// Along such a run the offset is its start plus what was consumed.
proof fn lemma_run_consumed(hs: Seq<HeapState>, ws: Seq<usize>)
    requires
        hs.len() == ws.len() + 1,
        forall|i: int|
            0 <= i < ws.len() ==> #[trigger] hs[i + 1].next_free_byte == (if granted(
                hs[i].next_free_byte as int,
                ws[i],
            ) {
                hs[i].next_free_byte + adjusted_size(ws[i])
            } else {
                hs[i].next_free_byte as int
            }),
    ensures
        hs.last().next_free_byte == hs[0].next_free_byte + consumed(hs[0].next_free_byte as int, ws),
    decreases ws.len(),
{
    if ws.len() > 0 {
        let hs1 = hs.drop_first();
        let ws1 = ws.drop_first();
        assert forall|i: int| 0 <= i < ws1.len() implies #[trigger] hs1[i + 1].next_free_byte == (if granted(
            hs1[i].next_free_byte as int,
            ws1[i],
        ) {
            hs1[i].next_free_byte + adjusted_size(ws1[i])
        } else {
            hs1[i].next_free_byte as int
        }) by {
            assert(hs1[i + 1] == hs[i + 2] && hs1[i] == hs[i + 1] && ws1[i] == ws[i + 1]);
            assert(hs[(i + 1) + 1].next_free_byte == (if granted(hs[i + 1].next_free_byte as int, ws[i + 1]) {
                hs[i + 1].next_free_byte + adjusted_size(ws[i + 1])
            } else {
                hs[i + 1].next_free_byte as int
            }));
        }
        lemma_run_consumed(hs1, ws1);
        assert(hs[0int + 1].next_free_byte == (if granted(hs[0].next_free_byte as int, ws[0]) {
            hs[0].next_free_byte + adjusted_size(ws[0])
        } else {
            hs[0].next_free_byte as int
        }));
        assert(hs1.last() == hs.last());
    }
}

/// A request is never given fewer bytes than it asked for.
proof fn lemma_adjusted_at_least(w: usize)
    ensures
        adjusted_size(w) >= w,
{
    let m = w & portBYTE_ALIGNMENT_MASK;
    assert(m <= 4) by (bit_vector)
        requires
            m == w & 4usize,
    ;
}

} // verus!
