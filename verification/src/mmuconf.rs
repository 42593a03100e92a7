//! A simulated memory management unit: a task's virtual pages live either in
//! a frame of main memory or on disk; a small TLB caches translations, and a
//! page fault evicts the least recently used frame (or, in the other mode,
//! the oldest one), writing it back to disk when it was modified.
//!
//! The virtual memory a task sees is `Mmu::vmem`: a word of a resident page
//! is read from its frame, a word of any other page from the page's disk
//! block.  Reads leave it as it is and writes change just the word written.
use vstd::prelude::*;
use vstd::std_specs::cmp::PartialEqSpecImpl;
use crate::linkedlist::{Linkedlist, first_eq};

verus! {

/// Page replacement by least recent use (otherwise first in, first out).
pub const replace_use_lru: bool = true;

/// Main memory size in KiB.
pub const memory_size_kb: i32 = 8i32;

/// Words per page.
pub const page_size: i32 = 1024i32;

/// Words of main memory.
pub const memory_size: i32 = 8192i32;

/// Frames of main memory.
pub const page_count: i32 = 8i32;

/// Words of disk.
pub const disk_size: i32 = 32768i32;

/// Words of virtual address space.
pub const virtual_space: i32 = 16384i32;

/// Entries of a page table.
pub const page_table_size: i32 = 16i32;

/// Lines of the TLB.
pub const tlb_size: i32 = 32i32;

/// Cost of a TLB lookup.
pub const time_tlb_access: u64 = 1u64;

/// Cost of a page table access.
pub const time_memory_access: u64 = 100u64;

/// Cost of a word access.
pub const time_cache_access: u64 = 100u64;

/// Cost of moving a page between disk and memory.
pub const time_disk_access: u64 = 1000000u64;

/// Disk address of the first virtual page.
pub const start_address: i32 = 0i32;

/// The task whose pages the simulator manages.
pub const CURRENT_TASK: usize = 0usize;

/// One TLB line.
#[derive(Clone, Copy)]
pub struct Line {
    pub valid: bool,
    pub reference: bool,
    pub modified: bool,
    pub page_number: i32,
    pub frame_number: i32,
}

/// One page table entry.
#[derive(Clone, Copy)]
pub struct Entry {
    pub valid: bool,
    pub modified: bool,
    pub frame_number: i32,
    pub disk_address: i32,
}

/// The task state the simulator needs: a name and a page table.
pub struct TCB {
    pub name: String,
    pub page_table: Vec<Entry>,
}

/// An entry of a replacement list: a frame, the page it holds and the task
/// that page belongs to.  Two items are equal when they name the same frame.
#[derive(Clone, Copy)]
pub struct Item {
    pub frame_number: i32,
    pub page_number: i32,
    pub task_belong: usize,
}

impl Default for Line {
    fn default() -> (r: Line)
        ensures
            !r.valid && !r.reference && !r.modified && r.page_number == 0 && r.frame_number == 0,
    {
        Line { valid: false, reference: false, modified: false, page_number: 0, frame_number: 0 }
    }
}

impl Default for Entry {
    fn default() -> (r: Entry)
        ensures
            !r.valid && !r.modified && r.frame_number == 0 && r.disk_address == 0,
    {
        Entry { valid: false, modified: false, frame_number: 0, disk_address: 0 }
    }
}

impl Default for Item {
    fn default() -> (r: Item)
        ensures
            r.frame_number == 0 && r.page_number == 0 && r.task_belong == CURRENT_TASK,
    {
        Item { frame_number: 0, page_number: 0, task_belong: CURRENT_TASK }
    }
}

impl TCB {
    /// A task with an empty name and an empty page table.
    pub fn new() -> (r: TCB)
        ensures
            r.name@.len() == 0,
            r.page_table@.len() == 0,
    {
        TCB { name: String::new(), page_table: Vec::new() }
    }
}

impl PartialEq for Item {
    fn eq(&self, other: &Self) -> (r: bool) {
        self.frame_number == other.frame_number
    }
}

impl PartialEqSpecImpl for Item {
    open spec fn obeys_eq_spec() -> bool {
        true
    }

    open spec fn eq_spec(&self, other: &Item) -> bool {
        self.frame_number == other.frame_number
    }
}

/// Counters of the simulation.
#[derive(Clone, Copy)]
pub struct Stats {
    pub tlb_hit: u32,
    pub tlb_miss: u32,
    pub memory_hit: u32,
    pub memory_miss: u32,
    pub replace_count_fifo: u32,
    pub time_cost: u64,
}

/// The whole simulated machine: memory, disk, TLB, the task's page table,
/// the replacement lists and the counters.
pub struct Mmu {
    pub memory: Vec<u32>,
    pub disk: Vec<u32>,
    pub tlb: Vec<Line>,
    pub tcb: TCB,
    pub stats: Stats,
    pub lru_list: Linkedlist<Item>,
    pub fifo_list: Linkedlist<Item>,
}

/// The disk block of virtual page `p`.
pub open spec fn disk_of(p: int) -> int {
    start_address + p * page_size
}

impl Mmu {
    /// Entry `p` of the page table.
    pub open spec fn pte(&self, p: int) -> Entry {
        self.tcb.page_table@[p]
    }

    /// Word `off` of the frame that page `p` sits in.
    pub open spec fn frame_word(&self, p: int, off: int) -> u32 {
        self.memory@[self.pte(p).frame_number * page_size + off]
    }

    /// Word `off` of the disk block of page `p`.
    pub open spec fn disk_word(&self, p: int, off: int) -> u32 {
        self.disk@[disk_of(p) + off]
    }

    /// The word at virtual address `v`.
    pub open spec fn vword(&self, v: int) -> u32 {
        let p = v / (page_size as int);
        let off = v % (page_size as int);
        if self.pte(p).valid {
            self.frame_word(p, off)
        } else {
            self.disk_word(p, off)
        }
    }

    /// The task's virtual memory.
    pub open spec fn vmem(&self) -> Seq<u32> {
        Seq::new(virtual_space as nat, |v: int| self.vword(v))
    }

    /// A TLB line marks page `p` as written.
    pub open spec fn tlb_dirty(&self, p: int) -> bool {
        exists|i: int|
            0 <= i < tlb_size && (#[trigger] self.tlb@[i]).valid && self.tlb@[i].page_number == p
                && self.tlb@[i].modified
    }

    /// The frame of page `p` holds what its disk block holds.
    pub open spec fn page_clean(&self, p: int) -> bool {
        forall|off: int| 0 <= off < page_size ==> #[trigger] self.frame_word(p, off) == self.disk_word(p, off)
    }

    /// Sizes of the memories and tables.
    pub open spec fn sizes_ok(&self) -> bool {
        &&& self.memory@.len() == memory_size
        &&& self.disk@.len() == disk_size
        &&& self.tlb@.len() == tlb_size
        &&& self.tcb.page_table@.len() == page_table_size
    }

    /// The page table: fixed disk blocks; resident pages in distinct frames;
    /// a resident page that no one wrote matches its disk block.
    pub open spec fn table_ok(&self) -> bool {
        &&& forall|p: int| 0 <= p < page_table_size ==> (#[trigger] self.pte(p)).disk_address == disk_of(p)
        &&& forall|p: int|
            0 <= p < page_table_size && (#[trigger] self.pte(p)).valid ==> 0 <= self.pte(p).frame_number
                < page_count
        &&& forall|p: int, q: int|
            0 <= p < page_table_size && 0 <= q < page_table_size && p != q && (#[trigger] self.pte(
                p,
            )).valid && (#[trigger] self.pte(q)).valid ==> self.pte(p).frame_number != self.pte(
                q,
            ).frame_number
        &&& forall|p: int|
            0 <= p < page_table_size && (#[trigger] self.pte(p)).valid && !self.pte(p).modified
                && !self.tlb_dirty(p) ==> self.page_clean(p)
    }

    /// The TLB: a valid line caches the translation of a resident page, and
    /// no two valid lines cache the same page.
    pub open spec fn tlb_ok(&self) -> bool {
        &&& forall|i: int|
            0 <= i < tlb_size && (#[trigger] self.tlb@[i]).valid ==> {
                let p = self.tlb@[i].page_number as int;
                &&& 0 <= p < page_table_size
                &&& self.pte(p).valid
                &&& self.tlb@[i].frame_number == self.pte(p).frame_number
            }
        &&& forall|i: int, j: int|
            0 <= i < tlb_size && 0 <= j < tlb_size && i != j && (#[trigger] self.tlb@[i]).valid
                && (#[trigger] self.tlb@[j]).valid ==> self.tlb@[i].page_number
                != self.tlb@[j].page_number
    }

    /// A replacement list: each item is a frame holding a resident page of
    /// the task, frames distinct, and there is always a victim to pick.
    pub open spec fn repl_ok(&self, s: Seq<Item>) -> bool {
        &&& s.len() > 0
        &&& forall|i: int|
            0 <= i < s.len() ==> {
                let it = #[trigger] s[i];
                &&& it.task_belong == CURRENT_TASK
                &&& 0 <= it.page_number < page_table_size
                &&& self.pte(it.page_number as int).valid
                &&& self.pte(it.page_number as int).frame_number == it.frame_number
            }
        &&& forall|i: int, j: int|
            0 <= i < s.len() && 0 <= j < s.len() && i != j ==> (#[trigger] s[i]).frame_number
                != (#[trigger] s[j]).frame_number
    }

    /// The simulator is ready: all of the above.
    pub open spec fn wf(&self) -> bool {
        &&& self.sizes_ok()
        &&& self.table_ok()
        &&& self.tlb_ok()
        &&& self.lru_list.wf()
        &&& self.fifo_list.wf()
        &&& (replace_use_lru ==> self.repl_ok(self.lru_list@))
        &&& (!replace_use_lru ==> self.repl_ok(self.fifo_list@))
    }
}

/// Counters all zero.
pub open spec fn zero_stats(s: Stats) -> bool {
    s.tlb_hit == 0 && s.tlb_miss == 0 && s.memory_hit == 0 && s.memory_miss == 0
        && s.replace_count_fifo == 0 && s.time_cost == 0
}

/// A read of a word gives back the last word written there, and a write
/// changes no other word.
pub proof fn law_read_after_write(before: Seq<u32>, after: Seq<u32>, v: int, data: u32)
    requires
        before.len() == virtual_space,
        0 <= v < virtual_space,
        after == before.update(v, data),
    ensures
        after[v] == data,
        forall|w: int| 0 <= w < virtual_space && w != v ==> after[w] == before[w],
{
}


/// One operation that leaves word `v` of the task's memory alone: a read, a
/// translation, a fault or a TLB update (the memory stays as it is), or a
/// write of another word.
pub open spec fn keeps_word(a: Seq<u32>, b: Seq<u32>, v: int) -> bool {
    ||| b == a
    ||| exists|w: int, x: u32| 0 <= w < a.len() && w != v && b == #[trigger] a.update(w, x)
}

/// A read gives back the last word written at its address, whatever
/// operations came in between that wrote no other word there: along a run
/// `ms` of memory states that starts just after word `v` was written with
/// `data`, each step keeping word `v`, the word is still `data` at the end.
pub proof fn law_read_gives_last_write(ms: Seq<Seq<u32>>, v: int, data: u32)
    requires
        ms.len() >= 1,
        ms[0].len() == virtual_space,
        0 <= v < virtual_space,
        ms[0][v] == data,
        forall|i: int| 0 <= i < ms.len() - 1 ==> #[trigger] keeps_word(ms[i], ms[i + 1], v),
    ensures
        ms.last().len() == virtual_space,
        ms.last()[v] == data,
    decreases ms.len(),
{
    if ms.len() > 1 {
        let front = ms.drop_last();
        assert forall|i: int| 0 <= i < front.len() - 1 implies #[trigger] keeps_word(front[i], front[i + 1], v) by {
            assert(keeps_word(ms[i], ms[i + 1], v));
        }
        law_read_gives_last_write(front, v, data);
        let n = ms.len() - 2;
        let a = ms[n];
        let b = ms[n + 1];
        assert(a == front.last());
        assert(b == ms.last());
        assert(keeps_word(ms[n], ms[n + 1], v));
        if b != a {
            let (w, x) = choose|w: int, x: u32| 0 <= w < a.len() && w != v && b == #[trigger] a.update(w, x);
            assert(b[v] == a[v]);
        }
    }
}

impl Mmu {
    /// Some valid TLB line caches page `p`.
    pub open spec fn tlb_has(&self, p: int) -> bool {
        exists|i: int| 0 <= i < tlb_size && (#[trigger] self.tlb@[i]).valid && self.tlb@[i].page_number == p
    }

    /// The machine as it starts: zeroed memory and disk, an empty TLB, a task
    /// with an empty page table, empty lists and zero counters.
    pub fn new() -> (r: Mmu)
        ensures
            r.memory@.len() == memory_size,
            r.disk@.len() == disk_size,
            r.tlb@.len() == tlb_size,
            r.tcb.page_table@.len() == 0,
            forall|i: int| 0 <= i < memory_size ==> #[trigger] r.memory@[i] == 0,
            forall|i: int| 0 <= i < disk_size ==> #[trigger] r.disk@[i] == 0,
            forall|i: int| 0 <= i < tlb_size ==> !(#[trigger] r.tlb@[i]).valid,
            r.lru_list.wf(),
            r.lru_list@.len() == 0,
            r.fifo_list.wf(),
            r.fifo_list@.len() == 0,
            zero_stats(r.stats),
    {
        let memory: Vec<u32> = vec![0u32; 8192usize];
        let disk: Vec<u32> = vec![0u32; 32768usize];
        let mut tlb: Vec<Line> = Vec::new();
        let mut i: usize = 0;
        while i < 32
            invariant
                i <= 32,
                tlb@.len() == i,
                forall|j: int| 0 <= j < i ==> !(#[trigger] tlb@[j]).valid,
            decreases 32 - i,
        {
            tlb.push(Line::default());
            i = i + 1;
        }
        Mmu {
            memory,
            disk,
            tlb,
            tcb: TCB::new(),
            stats: Stats {
                tlb_hit: 0,
                tlb_miss: 0,
                memory_hit: 0,
                memory_miss: 0,
                replace_count_fifo: 0,
                time_cost: 0,
            },
            lru_list: Linkedlist::new(),
            fifo_list: Linkedlist::new(),
        }
    }
}

/// Resets every counter to zero.
pub fn stat_init(mmu: &mut Mmu)
    ensures
        zero_stats(final(mmu).stats),
        final(mmu).memory == old(mmu).memory,
        final(mmu).disk == old(mmu).disk,
        final(mmu).tlb == old(mmu).tlb,
        final(mmu).tcb == old(mmu).tcb,
        final(mmu).lru_list == old(mmu).lru_list,
        final(mmu).fifo_list == old(mmu).fifo_list,
{
    mmu.stats = Stats {
        tlb_hit: 0,
        tlb_miss: 0,
        memory_hit: 0,
        memory_miss: 0,
        replace_count_fifo: 0,
        time_cost: 0,
    };
}

/// Copies the disk block at `disk_address_begin` into frame `frame` and
/// charges one disk access.
pub fn read_to_memory(mmu: &mut Mmu, frame: i32, disk_address_begin: i32)
    requires
        old(mmu).memory@.len() == memory_size,
        old(mmu).disk@.len() == disk_size,
        0 <= frame < page_count,
        0 <= disk_address_begin <= disk_size - page_size,
    ensures
        final(mmu).memory@.len() == memory_size,
        forall|a: int|
            0 <= a < memory_size ==> #[trigger] final(mmu).memory@[a] == if frame * page_size <= a
                < frame * page_size + page_size {
                old(mmu).disk@[disk_address_begin + (a - frame * page_size)]
            } else {
                old(mmu).memory@[a]
            },
        final(mmu).stats.time_cost == old(mmu).stats.time_cost.wrapping_add(time_disk_access),
        final(mmu).stats.tlb_hit == old(mmu).stats.tlb_hit,
        final(mmu).stats.tlb_miss == old(mmu).stats.tlb_miss,
        final(mmu).stats.memory_hit == old(mmu).stats.memory_hit,
        final(mmu).stats.memory_miss == old(mmu).stats.memory_miss,
        final(mmu).stats.replace_count_fifo == old(mmu).stats.replace_count_fifo,
        final(mmu).disk == old(mmu).disk,
        final(mmu).tlb == old(mmu).tlb,
        final(mmu).tcb == old(mmu).tcb,
        final(mmu).lru_list == old(mmu).lru_list,
        final(mmu).fifo_list == old(mmu).fifo_list,
{
    let mut i: i32 = 0;
    while i < page_size
        invariant
            0 <= i <= page_size,
            0 <= frame < page_count,
            0 <= disk_address_begin <= disk_size - page_size,
            mmu.memory@.len() == memory_size,
            mmu.disk == old(mmu).disk,
            mmu.disk@.len() == disk_size,
            mmu.stats == old(mmu).stats,
            mmu.tlb == old(mmu).tlb,
            mmu.tcb == old(mmu).tcb,
            mmu.lru_list == old(mmu).lru_list,
            mmu.fifo_list == old(mmu).fifo_list,
            forall|a: int|
                0 <= a < memory_size ==> #[trigger] mmu.memory@[a] == if frame * page_size <= a
                    < frame * page_size + i {
                    old(mmu).disk@[disk_address_begin + (a - frame * page_size)]
                } else {
                    old(mmu).memory@[a]
                },
        decreases page_size - i,
    {
        let memory_address = frame * page_size + i;
        let disk_address = disk_address_begin + i;
        let w = mmu.disk[disk_address as usize];
        mmu.memory.set(memory_address as usize, w);
        i = i + 1;
    }
    mmu.stats.time_cost = mmu.stats.time_cost.wrapping_add(time_disk_access);
}

/// Copies frame `frame` into the disk block at `disk_address_begin` and
/// charges one disk access.
pub fn write_to_disk(mmu: &mut Mmu, frame: i32, disk_address_begin: i32)
    requires
        old(mmu).memory@.len() == memory_size,
        old(mmu).disk@.len() == disk_size,
        0 <= frame < page_count,
        0 <= disk_address_begin <= disk_size - page_size,
    ensures
        final(mmu).disk@.len() == disk_size,
        forall|a: int|
            0 <= a < disk_size ==> #[trigger] final(mmu).disk@[a] == if disk_address_begin <= a
                < disk_address_begin + page_size {
                old(mmu).memory@[frame * page_size + (a - disk_address_begin)]
            } else {
                old(mmu).disk@[a]
            },
        final(mmu).stats.time_cost == old(mmu).stats.time_cost.wrapping_add(time_disk_access),
        final(mmu).stats.tlb_hit == old(mmu).stats.tlb_hit,
        final(mmu).stats.tlb_miss == old(mmu).stats.tlb_miss,
        final(mmu).stats.memory_hit == old(mmu).stats.memory_hit,
        final(mmu).stats.memory_miss == old(mmu).stats.memory_miss,
        final(mmu).stats.replace_count_fifo == old(mmu).stats.replace_count_fifo,
        final(mmu).memory == old(mmu).memory,
        final(mmu).tlb == old(mmu).tlb,
        final(mmu).tcb == old(mmu).tcb,
        final(mmu).lru_list == old(mmu).lru_list,
        final(mmu).fifo_list == old(mmu).fifo_list,
{
    let mut i: i32 = 0;
    while i < page_size
        invariant
            0 <= i <= page_size,
            0 <= frame < page_count,
            0 <= disk_address_begin <= disk_size - page_size,
            mmu.disk@.len() == disk_size,
            mmu.memory == old(mmu).memory,
            mmu.memory@.len() == memory_size,
            mmu.stats == old(mmu).stats,
            mmu.tlb == old(mmu).tlb,
            mmu.tcb == old(mmu).tcb,
            mmu.lru_list == old(mmu).lru_list,
            mmu.fifo_list == old(mmu).fifo_list,
            forall|a: int|
                0 <= a < disk_size ==> #[trigger] mmu.disk@[a] == if disk_address_begin <= a
                    < disk_address_begin + i {
                    old(mmu).memory@[frame * page_size + (a - disk_address_begin)]
                } else {
                    old(mmu).disk@[a]
                },
        decreases page_size - i,
    {
        let memory_address = frame * page_size + i;
        let disk_address = disk_address_begin + i;
        let w = mmu.memory[memory_address as usize];
        mmu.disk.set(disk_address as usize, w);
        i = i + 1;
    }
    mmu.stats.time_cost = mmu.stats.time_cost.wrapping_add(time_disk_access);
}


/// Facts about division by the page size.
pub proof fn lemma_page_split(v: int)
    requires
        0 <= v < virtual_space,
    ensures
        0 <= v / (page_size as int) < page_table_size,
        0 <= v % (page_size as int) < page_size,
        v == (v / (page_size as int)) * page_size + v % (page_size as int),
{
}

/// A frame word address names one frame and one offset.
pub proof fn lemma_frame_addr(f1: int, o1: int, f2: int, o2: int)
    requires
        0 <= o1 < page_size,
        0 <= o2 < page_size,
        f1 * page_size + o1 == f2 * page_size + o2,
    ensures
        f1 == f2,
        o1 == o2,
{
}

/// A change that only marks TLB lines (referenced or modified) keeps the
/// simulator well formed and its virtual memory as it was.
pub proof fn lemma_tlb_marks(o: Mmu, m: Mmu)
    requires
        o.wf(),
        m.tcb == o.tcb,
        m.memory == o.memory,
        m.disk == o.disk,
        m.lru_list@ == o.lru_list@,
        m.fifo_list@ == o.fifo_list@,
        m.lru_list.wf(),
        m.fifo_list.wf(),
        m.tlb@.len() == o.tlb@.len(),
        forall|i: int|
            0 <= i < tlb_size ==> (#[trigger] m.tlb@[i]).valid == o.tlb@[i].valid
                && m.tlb@[i].page_number == o.tlb@[i].page_number && m.tlb@[i].frame_number
                == o.tlb@[i].frame_number,
        forall|q: int| 0 <= q < page_table_size && #[trigger] o.tlb_dirty(q) ==> m.tlb_dirty(q),
    ensures
        m.wf(),
        m.vmem() == o.vmem(),
        forall|p: int| #[trigger] m.pte(p) == o.pte(p),
{
    assert forall|p: int| #[trigger] m.pte(p) == o.pte(p) by {}
    assert forall|q: int| 0 <= q < page_table_size && (#[trigger] m.pte(q)).valid && !m.pte(q).modified
        && !m.tlb_dirty(q) implies m.page_clean(q) by {
        assert forall|off: int| 0 <= off < page_size implies #[trigger] m.frame_word(q, off)
            == m.disk_word(q, off) by {
            assert(o.frame_word(q, off) == o.disk_word(q, off));
        }
    }
    assert(m.tlb_ok()) by {
        assert forall|i: int| 0 <= i < tlb_size && (#[trigger] m.tlb@[i]).valid implies {
            let p = m.tlb@[i].page_number as int;
            &&& 0 <= p < page_table_size
            &&& m.pte(p).valid
            &&& m.tlb@[i].frame_number == m.pte(p).frame_number
        } by {
            assert(o.tlb@[i].valid);
        }
        assert forall|i: int, j: int|
            0 <= i < tlb_size && 0 <= j < tlb_size && i != j && (#[trigger] m.tlb@[i]).valid
                && (#[trigger] m.tlb@[j]).valid implies m.tlb@[i].page_number
                != m.tlb@[j].page_number by {
            assert(o.tlb@[i].valid && o.tlb@[j].valid);
        }
    }
    assert(m.repl_ok(m.lru_list@) == o.repl_ok(o.lru_list@));
    assert(m.repl_ok(m.fifo_list@) == o.repl_ok(o.fifo_list@));
    assert(m.vmem() =~= o.vmem()) by {
        assert forall|v: int| 0 <= v < virtual_space implies #[trigger] m.vword(v) == o.vword(v) by {
            assert(m.pte(v / (page_size as int)) == o.pte(v / (page_size as int)));
        }
    }
}

/// Dirty and cached pages depend on the TLB alone.
pub proof fn lemma_tlb_same(o: Mmu, m: Mmu)
    requires
        m.tlb == o.tlb,
    ensures
        forall|q: int| #[trigger] m.tlb_dirty(q) == o.tlb_dirty(q),
        forall|q: int| #[trigger] m.tlb_has(q) == o.tlb_has(q),
{
    assert forall|q: int| #[trigger] m.tlb_dirty(q) == o.tlb_dirty(q) by {
        if o.tlb_dirty(q) {
            let j = choose|j: int| 0 <= j < tlb_size && (#[trigger] o.tlb@[j]).valid
                && o.tlb@[j].page_number == q && o.tlb@[j].modified;
            assert(m.tlb@[j] == o.tlb@[j]);
        }
        if m.tlb_dirty(q) {
            let j = choose|j: int| 0 <= j < tlb_size && (#[trigger] m.tlb@[j]).valid
                && m.tlb@[j].page_number == q && m.tlb@[j].modified;
            assert(m.tlb@[j] == o.tlb@[j]);
        }
    }
    assert forall|q: int| #[trigger] m.tlb_has(q) == o.tlb_has(q) by {
        if o.tlb_has(q) {
            let j = choose|j: int| 0 <= j < tlb_size && (#[trigger] o.tlb@[j]).valid
                && o.tlb@[j].page_number == q;
            assert(m.tlb@[j] == o.tlb@[j]);
        }
        if m.tlb_has(q) {
            let j = choose|j: int| 0 <= j < tlb_size && (#[trigger] m.tlb@[j]).valid
                && m.tlb@[j].page_number == q;
            assert(m.tlb@[j] == o.tlb@[j]);
        }
    }
}

/// A change of the counters alone keeps everything else.
pub proof fn lemma_stats_only(o: Mmu, m: Mmu)
    requires
        o.wf(),
        m.tcb == o.tcb,
        m.memory == o.memory,
        m.disk == o.disk,
        m.tlb == o.tlb,
        m.lru_list == o.lru_list,
        m.fifo_list == o.fifo_list,
    ensures
        m.wf(),
        m.vmem() == o.vmem(),
        forall|p: int| #[trigger] m.pte(p) == o.pte(p),
        forall|q: int| #[trigger] m.tlb_dirty(q) == o.tlb_dirty(q),
        forall|q: int| #[trigger] m.tlb_has(q) == o.tlb_has(q),
        victim_of(m) == victim_of(o),
        victim_dirty(m) == victim_dirty(o),
{
    lemma_tlb_same(o, m);
    lemma_tlb_marks(o, m);
}

/// A change of the replacement list alone, to a good one, keeps everything
/// else.
pub proof fn lemma_lru_only(o: Mmu, m: Mmu)
    requires
        o.sizes_ok(),
        o.table_ok(),
        o.tlb_ok(),
        o.fifo_list.wf(),
        !replace_use_lru ==> o.repl_ok(o.fifo_list@),
        m.tcb == o.tcb,
        m.memory == o.memory,
        m.disk == o.disk,
        m.tlb == o.tlb,
        m.fifo_list == o.fifo_list,
        m.lru_list.wf(),
        replace_use_lru ==> o.repl_ok(m.lru_list@),
    ensures
        m.wf(),
        m.vmem() == o.vmem(),
        forall|p: int| #[trigger] m.pte(p) == o.pte(p),
        forall|q: int| #[trigger] m.tlb_dirty(q) == o.tlb_dirty(q),
        forall|q: int| #[trigger] m.tlb_has(q) == o.tlb_has(q),
{
    lemma_tlb_same(o, m);
    assert forall|p: int| #[trigger] m.pte(p) == o.pte(p) by {}
    assert(m.repl_ok(m.lru_list@) == o.repl_ok(m.lru_list@));
    assert(m.repl_ok(m.fifo_list@) == o.repl_ok(o.fifo_list@));
    assert forall|q: int| 0 <= q < page_table_size && (#[trigger] m.pte(q)).valid && !m.pte(q).modified
        && !m.tlb_dirty(q) implies m.page_clean(q) by {
        assert forall|off: int| 0 <= off < page_size implies #[trigger] m.frame_word(q, off)
            == m.disk_word(q, off) by {
            assert(o.frame_word(q, off) == o.disk_word(q, off));
        }
    }
    assert(m.tlb_ok()) by {
        assert forall|i: int| 0 <= i < tlb_size && (#[trigger] m.tlb@[i]).valid implies {
            let p = m.tlb@[i].page_number as int;
            &&& 0 <= p < page_table_size
            &&& m.pte(p).valid
            &&& m.tlb@[i].frame_number == m.pte(p).frame_number
        } by {
            assert(o.tlb@[i].valid);
        }
    }
    assert(m.vmem() =~= o.vmem()) by {
        assert forall|v: int| 0 <= v < virtual_space implies #[trigger] m.vword(v) == o.vword(v) by {
            assert(m.pte(v / (page_size as int)) == o.pte(v / (page_size as int)));
        }
    }
}

/// Looks page `vaddr / page_size` up in the TLB.  On a hit the line is
/// marked referenced (and modified, for a write) and the physical address is
/// returned; on a miss, -1.  Either way one TLB access is charged.
pub fn tlb_search(mmu: &mut Mmu, vaddr: i32, write: bool) -> (r: i32)
    requires
        old(mmu).wf(),
        0 <= vaddr < virtual_space,
    ensures
        final(mmu).wf(),
        final(mmu).vmem() == old(mmu).vmem(),
        ({
            let p = vaddr / page_size;
            let off = vaddr % page_size;
            &&& (r == -1) == !old(mmu).tlb_has(p as int)
            &&& r != -1 ==> old(mmu).pte(p as int).valid && r == old(mmu).pte(p as int).frame_number
                * page_size + off
            &&& r != -1 && write ==> final(mmu).tlb_dirty(p as int)
        }),
        r == -1 ==> final(mmu).tlb == old(mmu).tlb,
        r != -1 ==> final(mmu).tlb@ == tlb_touch(old(mmu).tlb@, vaddr / page_size, write),
        forall|i: int|
            0 <= i < tlb_size ==> (#[trigger] final(mmu).tlb@[i]).valid == old(mmu).tlb@[i].valid
                && final(mmu).tlb@[i].page_number == old(mmu).tlb@[i].page_number
                && final(mmu).tlb@[i].frame_number == old(mmu).tlb@[i].frame_number,
        final(mmu).stats.time_cost == old(mmu).stats.time_cost.wrapping_add(time_tlb_access),
        final(mmu).stats.tlb_hit == old(mmu).stats.tlb_hit,
        final(mmu).stats.tlb_miss == old(mmu).stats.tlb_miss,
        final(mmu).stats.memory_hit == old(mmu).stats.memory_hit,
        final(mmu).stats.memory_miss == old(mmu).stats.memory_miss,
        final(mmu).stats.replace_count_fifo == old(mmu).stats.replace_count_fifo,
        final(mmu).memory == old(mmu).memory,
        final(mmu).disk == old(mmu).disk,
        final(mmu).tcb == old(mmu).tcb,
        final(mmu).lru_list == old(mmu).lru_list,
        final(mmu).fifo_list == old(mmu).fifo_list,
{
    let page_number = vaddr / page_size;
    let offset = vaddr % page_size;
    mmu.stats.time_cost = mmu.stats.time_cost.wrapping_add(time_tlb_access);
    let ghost o = *old(mmu);
    let ghost m1 = *mmu;
    let mut i: usize = 0;
    while i < 32
        invariant
            0 <= i <= 32,
            *mmu == m1,
            o == *old(mmu),
            m1.stats.time_cost == o.stats.time_cost.wrapping_add(time_tlb_access),
            m1.stats.tlb_hit == o.stats.tlb_hit,
            m1.stats.tlb_miss == o.stats.tlb_miss,
            m1.stats.memory_hit == o.stats.memory_hit,
            m1.stats.memory_miss == o.stats.memory_miss,
            m1.stats.replace_count_fifo == o.stats.replace_count_fifo,
            m1.tlb == o.tlb,
            m1.tcb == o.tcb,
            m1.memory == o.memory,
            m1.disk == o.disk,
            m1.lru_list == o.lru_list,
            m1.fifo_list == o.fifo_list,
            o.wf(),
            page_number == vaddr / page_size,
            offset == vaddr % page_size,
            0 <= vaddr < virtual_space,
            mmu.tlb@.len() == tlb_size,
            forall|j: int|
                0 <= j < i ==> !((#[trigger] mmu.tlb@[j]).valid && mmu.tlb@[j].page_number
                    == page_number),
        decreases 32 - i,
    {
        let line = mmu.tlb[i];
        if line.valid && line.page_number == page_number {
            proof {
                assert(mmu.tlb@[i as int].valid);
                assert(o.tlb@[i as int].valid);
                assert(o.pte(line.page_number as int).valid);
            }
            let mut nl = line;
            nl.reference = true;
            if write {
                nl.modified = true;
            }
            mmu.tlb.set(i, nl);
            let r = line.frame_number * page_size + offset;
            proof {
                let m = *mmu;
                assert(o.tlb_has(page_number as int));
                assert forall|q: int| 0 <= q < page_table_size && #[trigger] o.tlb_dirty(q) implies m.tlb_dirty(q) by {
                    let j = choose|j: int| 0 <= j < tlb_size && (#[trigger] o.tlb@[j]).valid
                        && o.tlb@[j].page_number == q && o.tlb@[j].modified;
                    assert(m.tlb@[j].valid && m.tlb@[j].page_number == q && m.tlb@[j].modified);
                }
                if write {
                    assert(m.tlb@[i as int].valid && m.tlb@[i as int].page_number == page_number
                        && m.tlb@[i as int].modified);
                }
                lemma_tlb_marks(o, m);
                assert(o.pte(page_number as int).valid);
                assert(line.frame_number == o.pte(page_number as int).frame_number);
                lemma_line_of(o, i as int, page_number as int);
                assert(m.tlb@ == tlb_touch(o.tlb@, page_number as int, write));
            }
            return r;
        }
        i = i + 1;
    }
    proof {
        if o.tlb_has(page_number as int) {
            let j = choose|j: int| 0 <= j < tlb_size && (#[trigger] o.tlb@[j]).valid
                && o.tlb@[j].page_number == page_number;
            assert(!(mmu.tlb@[j].valid && mmu.tlb@[j].page_number == page_number));
        }
        let m = *mmu;
        assert(m.tlb == o.tlb);
        lemma_tlb_marks(o, m);
    }
    -1
}


/// Every TLB line keeps its translation and its modified mark.
pub open spec fn same_lines(a: Seq<Line>, b: Seq<Line>) -> bool {
    &&& a.len() == b.len()
    &&& forall|i: int|
        0 <= i < a.len() ==> (#[trigger] a[i]).valid == b[i].valid && a[i].page_number
            == b[i].page_number && a[i].frame_number == b[i].frame_number && a[i].modified
            == b[i].modified
}

/// Some valid line of TLB `t` caches page `p`.
pub open spec fn has_line(t: Seq<Line>, p: int) -> bool {
    exists|i: int| 0 <= i < tlb_size && (#[trigger] t[i]).valid && t[i].page_number == p
}

/// The line of TLB `t` that caches page `p` (meaningful under `has_line`).
pub open spec fn line_of(t: Seq<Line>, p: int) -> int {
    choose|i: int| 0 <= i < tlb_size && (#[trigger] t[i]).valid && t[i].page_number == p
}

/// TLB `t` once the line caching page `p`, if any, is dropped (made invalid,
/// its other fields kept).
pub open spec fn tlb_drop(t: Seq<Line>, p: int) -> Seq<Line> {
    if has_line(t, p) {
        t.update(line_of(t, p), Line { valid: false, ..t[line_of(t, p)] })
    } else {
        t
    }
}

/// TLB `t` once a hit on page `p` marked its line referenced, and modified
/// for a write.
pub open spec fn tlb_touch(t: Seq<Line>, p: int, write: bool) -> Seq<Line> {
    let i = line_of(t, p);
    t.update(i, Line { reference: true, modified: t[i].modified || write, ..t[i] })
}

/// Line `i` is the first invalid line of `t`.
pub open spec fn is_first_free(t: Seq<Line>, i: int) -> bool {
    &&& 0 <= i < tlb_size
    &&& !t[i].valid
    &&& forall|j: int| 0 <= j < i ==> (#[trigger] t[j]).valid
}

/// The first invalid line of `t`, or `tlb_size` when every line is valid.
pub open spec fn first_free(t: Seq<Line>) -> int {
    if exists|i: int| is_first_free(t, i) {
        choose|i: int| is_first_free(t, i)
    } else {
        tlb_size as int
    }
}

/// Line `i` is the first line of `t` not marked referenced.
pub open spec fn is_first_unref(t: Seq<Line>, i: int) -> bool {
    &&& 0 <= i < tlb_size
    &&& !t[i].reference
    &&& forall|j: int| 0 <= j < i ==> (#[trigger] t[j]).reference
}

/// The first line of `t` not marked referenced, or `tlb_size` when every
/// line is.
pub open spec fn first_unref(t: Seq<Line>) -> int {
    if exists|i: int| is_first_unref(t, i) {
        choose|i: int| is_first_unref(t, i)
    } else {
        tlb_size as int
    }
}

/// `t` with the referenced marks of its first `n` lines cleared.
pub open spec fn clear_refs(t: Seq<Line>, n: int) -> Seq<Line> {
    Seq::new(t.len(), |j: int| if j < n { Line { reference: false, ..t[j] } } else { t[j] })
}

/// The line that `tlb_update` replaces: the first invalid one; failing
/// that, the first one not referenced; failing that, line 0.
pub open spec fn tlb_victim(t: Seq<Line>) -> int {
    if first_free(t) < tlb_size {
        first_free(t)
    } else if first_unref(t) < tlb_size {
        first_unref(t)
    } else {
        0
    }
}

/// The TLB once `tlb_update` caches page `p` in frame `f`: when no line is
/// free, the referenced marks of the lines passed in the search for an
/// unreferenced one are cleared (all of them when there is none); the
/// victim line then holds the new translation, referenced and clean.
pub open spec fn tlb_after_update(t: Seq<Line>, p: i32, f: i32) -> Seq<Line> {
    let swept = if first_free(t) < tlb_size {
        t
    } else {
        clear_refs(t, first_unref(t))
    };
    swept.update(
        tlb_victim(t),
        Line { valid: true, reference: true, modified: false, page_number: p, frame_number: f },
    )
}

/// The page table once `tlb_update` replaced a line of `t`: a written page
/// that the victim line cached gets its modified mark.
pub open spec fn table_after_update(t: Seq<Line>, pt: Seq<Entry>) -> Seq<Entry> {
    let l = t[tlb_victim(t)];
    if l.valid && l.modified {
        pt.update(l.page_number as int, Entry { modified: true, ..pt[l.page_number as int] })
    } else {
        pt
    }
}

/// The first invalid line is the one the search stops at.
pub proof fn lemma_first_free(t: Seq<Line>, i: int)
    requires
        is_first_free(t, i),
    ensures
        first_free(t) == i,
{
    let k = choose|k: int| is_first_free(t, k);
    if k < i {
        assert(t[k].valid);
    } else if k > i {
        assert(t[i].valid);
    }
}

/// With every line valid there is no first invalid one.
pub proof fn lemma_no_free(t: Seq<Line>)
    requires
        forall|j: int| 0 <= j < tlb_size ==> (#[trigger] t[j]).valid,
    ensures
        first_free(t) == tlb_size,
{
    if exists|i: int| is_first_free(t, i) {
        let k = choose|k: int| is_first_free(t, k);
        assert(t[k].valid);
    }
}

/// The first unreferenced line is the one the sweep stops at.
pub proof fn lemma_first_unref(t: Seq<Line>, i: int)
    requires
        is_first_unref(t, i),
    ensures
        first_unref(t) == i,
{
    let k = choose|k: int| is_first_unref(t, k);
    if k < i {
        assert(t[k].reference);
    } else if k > i {
        assert(t[i].reference);
    }
}

/// With every line referenced there is no first unreferenced one.
pub proof fn lemma_no_unref(t: Seq<Line>)
    requires
        forall|j: int| 0 <= j < tlb_size ==> (#[trigger] t[j]).reference,
    ensures
        first_unref(t) == tlb_size,
{
    if exists|i: int| is_first_unref(t, i) {
        let k = choose|k: int| is_first_unref(t, k);
        assert(t[k].reference);
    }
}

/// In a well formed TLB at most one valid line caches a page, so the line
/// found for it is `line_of`.
pub proof fn lemma_line_of(m: Mmu, i: int, p: int)
    requires
        m.tlb_ok(),
        m.tlb@.len() == tlb_size,
        0 <= i < tlb_size,
        m.tlb@[i].valid,
        m.tlb@[i].page_number == p,
    ensures
        has_line(m.tlb@, p),
        line_of(m.tlb@, p) == i,
{
    assert(has_line(m.tlb@, p));
    let j = line_of(m.tlb@, p);
    if j != i {
        assert(m.tlb@[j].valid && m.tlb@[i].valid);
    }
}

/// Caches the translation of `page_number` to `frame_number` in the TLB.
/// The line taken is the first invalid one; failing that, the first one not
/// recently referenced, clearing the referenced mark of the lines passed;
/// failing that, line 0.  When the line dropped held a written page, the mark
/// moves to that page's table entry.
#[verifier::rlimit(40)]
pub fn tlb_update(mmu: &mut Mmu, page_number: i32, frame_number: i32)
    requires
        old(mmu).wf(),
        0 <= page_number < page_table_size,
        old(mmu).pte(page_number as int).valid,
        frame_number == old(mmu).pte(page_number as int).frame_number,
        !old(mmu).tlb_has(page_number as int),
    ensures
        final(mmu).wf(),
        final(mmu).vmem() == old(mmu).vmem(),
        final(mmu).tlb_has(page_number as int),
        forall|q: int|
            0 <= q < page_table_size ==> (#[trigger] final(mmu).pte(q)).valid == old(mmu).pte(q).valid
                && final(mmu).pte(q).frame_number == old(mmu).pte(q).frame_number
                && final(mmu).pte(q).disk_address == old(mmu).pte(q).disk_address && (old(
                mmu,
            ).pte(q).modified ==> final(mmu).pte(q).modified),
        final(mmu).tcb.page_table@.len() == old(mmu).tcb.page_table@.len(),
        final(mmu).tlb@ == tlb_after_update(old(mmu).tlb@, page_number, frame_number),
        final(mmu).tcb.page_table@ == table_after_update(old(mmu).tlb@, old(mmu).tcb.page_table@),
        final(mmu).memory == old(mmu).memory,
        final(mmu).disk == old(mmu).disk,
        final(mmu).stats == old(mmu).stats,
        final(mmu).lru_list == old(mmu).lru_list,
        final(mmu).fifo_list == old(mmu).fifo_list,
{
    let ghost o = *old(mmu);
    let mut victim: usize = 32;
    let mut i: usize = 0;
    while i < 32
        invariant_except_break
            victim == 32,
            forall|j: int| 0 <= j < i ==> (#[trigger] mmu.tlb@[j]).valid,
        invariant
            0 <= i <= 32,
            *mmu == o,
            o == *old(mmu),
            o.wf(),
        ensures
            victim <= 32,
            victim < 32 ==> !mmu.tlb@[victim as int].valid,
            victim < 32 ==> is_first_free(o.tlb@, victim as int),
            victim == 32 ==> forall|j: int| 0 <= j < 32 ==> (#[trigger] mmu.tlb@[j]).valid,
            *mmu == o,
        decreases 32 - i,
    {
        if !mmu.tlb[i].valid {
            victim = i;
            break;
        }
        i = i + 1;
    }
    let ghost v1 = victim;
    proof {
        if v1 < 32 {
            lemma_first_free(o.tlb@, v1 as int);
        } else {
            lemma_no_free(o.tlb@);
        }
    }
    if victim == 32 {
        i = 0;
        while i < 32
            invariant_except_break
                victim == 32,
                forall|j: int| 0 <= j < i ==> (#[trigger] o.tlb@[j]).reference,
            invariant
                0 <= i <= 32,
                o == *old(mmu),
                o.wf(),
                same_lines(mmu.tlb@, o.tlb@),
                mmu.tlb@ == clear_refs(o.tlb@, i as int),
                mmu.tcb == o.tcb,
                mmu.memory == o.memory,
                mmu.disk == o.disk,
                mmu.stats == o.stats,
                mmu.lru_list == o.lru_list,
                mmu.fifo_list == o.fifo_list,
            ensures
                victim <= 32,
                same_lines(mmu.tlb@, o.tlb@),
                victim < 32 ==> is_first_unref(o.tlb@, victim as int) && mmu.tlb@ == clear_refs(
                    o.tlb@,
                    victim as int,
                ),
                victim == 32 ==> (forall|j: int| 0 <= j < 32 ==> (#[trigger] o.tlb@[j]).reference) && mmu.tlb@
                    == clear_refs(o.tlb@, 32),
                mmu.tcb == o.tcb,
                mmu.memory == o.memory,
                mmu.disk == o.disk,
                mmu.stats == o.stats,
                mmu.lru_list == o.lru_list,
                mmu.fifo_list == o.fifo_list,
            decreases 32 - i,
        {
            let line = mmu.tlb[i];
            if !line.reference {
                victim = i;
                break;
            }
            let mut nl = line;
            nl.reference = false;
            let ghost tb = mmu.tlb@;
            mmu.tlb.set(i, nl);
            proof {
                assert(mmu.tlb@ =~= clear_refs(o.tlb@, i + 1));
            }
            i = i + 1;
        }
    }
    let ghost v0 = victim;
    if victim == 32 {
        victim = 0;
    }
    let ghost m2 = *mmu;
    proof {
        assert(m2.tlb@.len() == tlb_size);
        if v1 == 32 {
            if v0 < 32 {
                lemma_first_unref(o.tlb@, v0 as int);
            } else {
                lemma_no_unref(o.tlb@);
            }
        }
        assert(victim == tlb_victim(o.tlb@));
        assert(m2.tlb@ == (if first_free(o.tlb@) < tlb_size {
            o.tlb@
        } else {
            clear_refs(o.tlb@, first_unref(o.tlb@))
        }));
    }
    let old_line = mmu.tlb[victim];
    if old_line.valid && old_line.modified {
        proof {
            assert(o.tlb@[victim as int].valid);
        }
        let pg = old_line.page_number as usize;
        let mut e = mmu.tcb.page_table[pg];
        e.modified = true;
        mmu.tcb.page_table.set(pg, e);
    }
    mmu.tlb.set(
        victim,
        Line {
            valid: true,
            reference: true,
            modified: false,
            page_number: page_number,
            frame_number: frame_number,
        },
    );
    proof {
        let m = *mmu;
        let r = old_line.page_number as int;
        assert forall|q: int| 0 <= q < page_table_size implies (#[trigger] m.pte(q)).valid == o.pte(q).valid
            && m.pte(q).frame_number == o.pte(q).frame_number && m.pte(q).disk_address
            == o.pte(q).disk_address && (o.pte(q).modified ==> m.pte(q).modified) by {}
        assert forall|q: int| 0 <= q < page_table_size && (#[trigger] m.pte(q)).valid
            && !m.pte(q).modified && !m.tlb_dirty(q) implies m.page_clean(q) by {
            assert(o.pte(q).valid && !o.pte(q).modified);
            if o.tlb_dirty(q) {
                let j = choose|j: int| 0 <= j < tlb_size && (#[trigger] o.tlb@[j]).valid
                    && o.tlb@[j].page_number == q && o.tlb@[j].modified;
                if j != victim {
                    assert(m.tlb@[j].valid && m.tlb@[j].page_number == q && m.tlb@[j].modified);
                } else {
                    assert(m2.tlb@[j].valid && m2.tlb@[j].modified);
                }
            }
            assert forall|off: int| 0 <= off < page_size implies #[trigger] m.frame_word(q, off)
                == m.disk_word(q, off) by {
                assert(o.frame_word(q, off) == o.disk_word(q, off));
            }
        }
        assert(m.table_ok());
        assert(m.tlb_ok()) by {
            assert forall|i: int| 0 <= i < tlb_size && (#[trigger] m.tlb@[i]).valid implies {
                let p = m.tlb@[i].page_number as int;
                &&& 0 <= p < page_table_size
                &&& m.pte(p).valid
                &&& m.tlb@[i].frame_number == m.pte(p).frame_number
            } by {
                if i != victim {
                    assert(o.tlb@[i].valid);
                }
            }
            assert forall|i: int, j: int|
                0 <= i < tlb_size && 0 <= j < tlb_size && i != j && (#[trigger] m.tlb@[i]).valid
                    && (#[trigger] m.tlb@[j]).valid implies m.tlb@[i].page_number
                    != m.tlb@[j].page_number by {
                if i != victim && j != victim {
                    assert(o.tlb@[i].valid && o.tlb@[j].valid);
                } else if i == victim {
                    assert(o.tlb@[j].valid);
                } else {
                    assert(o.tlb@[i].valid);
                }
            }
        }
        assert forall|k: int| 0 <= k < o.lru_list@.len() implies {
            let it = #[trigger] o.lru_list@[k];
            m.pte(it.page_number as int).valid == o.pte(it.page_number as int).valid
        } by {}
        assert(m.repl_ok(m.lru_list@));
        assert(m.tlb@[victim as int].valid && m.tlb@[victim as int].page_number == page_number);
        assert(m.vmem() =~= o.vmem()) by {
            assert forall|v: int| 0 <= v < virtual_space implies #[trigger] m.vword(v) == o.vword(v) by {
                let p = v / (page_size as int);
                assert(m.pte(p).valid == o.pte(p).valid);
            }
        }
    }
}


/// Drops the TLB line that caches page `q`, if any; a modified mark on it
/// moves to the page's table entry.
pub fn tlb_invalidate_page(mmu: &mut Mmu, q: i32)
    requires
        old(mmu).wf(),
        0 <= q < page_table_size,
        old(mmu).pte(q as int).valid,
    ensures
        final(mmu).wf(),
        final(mmu).vmem() == old(mmu).vmem(),
        !final(mmu).tlb_has(q as int),
        final(mmu).pte(q as int).modified == (old(mmu).pte(q as int).modified || old(mmu).tlb_dirty(
            q as int,
        )),
        final(mmu).pte(q as int).valid == old(mmu).pte(q as int).valid,
        final(mmu).pte(q as int).frame_number == old(mmu).pte(q as int).frame_number,
        final(mmu).pte(q as int).disk_address == old(mmu).pte(q as int).disk_address,
        forall|r: int| 0 <= r < page_table_size && r != q ==> #[trigger] final(mmu).pte(r) == old(mmu).pte(r),
        final(mmu).tcb.page_table@.len() == old(mmu).tcb.page_table@.len(),
        forall|r: int| 0 <= r < page_table_size && r != q ==> #[trigger] final(mmu).tlb_dirty(r) == old(mmu).tlb_dirty(r),
        forall|r: int| 0 <= r < page_table_size && r != q ==> #[trigger] final(mmu).tlb_has(r) == old(mmu).tlb_has(r),
        final(mmu).tlb@ == tlb_drop(old(mmu).tlb@, q as int),
        final(mmu).memory == old(mmu).memory,
        final(mmu).disk == old(mmu).disk,
        final(mmu).stats == old(mmu).stats,
        final(mmu).lru_list == old(mmu).lru_list,
        final(mmu).fifo_list == old(mmu).fifo_list,
{
    let ghost o = *old(mmu);
    let mut i: usize = 0;
    while i < 32
        invariant
            0 <= i <= 32,
            *mmu == o,
            o == *old(mmu),
            o.wf(),
            0 <= q < page_table_size,
            forall|j: int| 0 <= j < i ==> !((#[trigger] mmu.tlb@[j]).valid && mmu.tlb@[j].page_number == q),
        decreases 32 - i,
    {
        let line = mmu.tlb[i];
        if line.valid && line.page_number == q {
            let mut nl = line;
            nl.valid = false;
            mmu.tlb.set(i, nl);
            if line.modified {
                let mut e = mmu.tcb.page_table[q as usize];
                e.modified = true;
                mmu.tcb.page_table.set(q as usize, e);
            }
            proof {
                let m = *mmu;
                let ii = i as int;
                lemma_line_of(o, ii, q as int);
                assert(m.tlb@ == tlb_drop(o.tlb@, q as int));
                assert forall|j: int| 0 <= j < tlb_size && j != ii implies #[trigger] m.tlb@[j] == o.tlb@[j] by {}
                assert(o.tlb_dirty(q as int) == line.modified) by {
                    if o.tlb_dirty(q as int) {
                        let j = choose|j: int| 0 <= j < tlb_size && (#[trigger] o.tlb@[j]).valid
                            && o.tlb@[j].page_number == q && o.tlb@[j].modified;
                        assert(j == ii);
                    }
                }
                assert(!m.tlb_has(q as int)) by {
                    if m.tlb_has(q as int) {
                        let j = choose|j: int| 0 <= j < tlb_size && (#[trigger] m.tlb@[j]).valid
                            && m.tlb@[j].page_number == q;
                        assert(o.tlb@[j].valid && o.tlb@[j].page_number == q);
                    }
                }
                assert forall|r: int| 0 <= r < page_table_size && r != q implies #[trigger] m.tlb_dirty(r) == o.tlb_dirty(r) by {
                    if m.tlb_dirty(r) {
                        let j = choose|j: int| 0 <= j < tlb_size && (#[trigger] m.tlb@[j]).valid
                            && m.tlb@[j].page_number == r && m.tlb@[j].modified;
                        assert(o.tlb@[j] == m.tlb@[j]);
                    }
                    if o.tlb_dirty(r) {
                        let j = choose|j: int| 0 <= j < tlb_size && (#[trigger] o.tlb@[j]).valid
                            && o.tlb@[j].page_number == r && o.tlb@[j].modified;
                        assert(o.tlb@[j] == m.tlb@[j]);
                    }
                }
                assert forall|r: int| 0 <= r < page_table_size && r != q implies #[trigger] m.tlb_has(r) == o.tlb_has(r) by {
                    if m.tlb_has(r) {
                        let j = choose|j: int| 0 <= j < tlb_size && (#[trigger] m.tlb@[j]).valid
                            && m.tlb@[j].page_number == r;
                        assert(o.tlb@[j] == m.tlb@[j]);
                    }
                    if o.tlb_has(r) {
                        let j = choose|j: int| 0 <= j < tlb_size && (#[trigger] o.tlb@[j]).valid
                            && o.tlb@[j].page_number == r;
                        assert(o.tlb@[j] == m.tlb@[j]);
                    }
                }
                assert forall|r: int| #![trigger m.pte(r)] 0 <= r < page_table_size && r != q implies m.pte(r) == o.pte(r) by {}
                assert forall|r: int| 0 <= r < page_table_size && (#[trigger] m.pte(r)).valid
                    && !m.pte(r).modified && !m.tlb_dirty(r) implies m.page_clean(r) by {
                    assert(o.pte(r).valid && !o.pte(r).modified);
                    if r == q {
                        assert(!o.tlb_dirty(q as int));
                    }
                    assert forall|off: int| 0 <= off < page_size implies #[trigger] m.frame_word(r, off)
                        == m.disk_word(r, off) by {
                        assert(o.frame_word(r, off) == o.disk_word(r, off));
                    }
                }
                assert(m.table_ok()) by {
                    assert forall|r: int| 0 <= r < page_table_size implies (#[trigger] m.pte(r)).disk_address == disk_of(r) by {
                        assert(o.pte(r).disk_address == disk_of(r));
                    }
                    assert forall|r: int| 0 <= r < page_table_size && (#[trigger] m.pte(r)).valid implies
                        0 <= m.pte(r).frame_number < page_count by {
                        assert(o.pte(r).valid);
                    }
                    assert forall|r1: int, r2: int|
                        0 <= r1 < page_table_size && 0 <= r2 < page_table_size && r1 != r2 && (#[trigger] m.pte(r1)).valid
                            && (#[trigger] m.pte(r2)).valid implies m.pte(r1).frame_number != m.pte(r2).frame_number by {
                        assert(o.pte(r1).valid && o.pte(r2).valid);
                    }
                }
                assert(m.tlb_ok()) by {
                    assert forall|j: int| 0 <= j < tlb_size && (#[trigger] m.tlb@[j]).valid implies {
                        let p = m.tlb@[j].page_number as int;
                        &&& 0 <= p < page_table_size
                        &&& m.pte(p).valid
                        &&& m.tlb@[j].frame_number == m.pte(p).frame_number
                    } by {
                        assert(o.tlb@[j].valid);
                    }
                    assert forall|j: int, k: int|
                        0 <= j < tlb_size && 0 <= k < tlb_size && j != k && (#[trigger] m.tlb@[j]).valid
                            && (#[trigger] m.tlb@[k]).valid implies m.tlb@[j].page_number
                            != m.tlb@[k].page_number by {
                        assert(o.tlb@[j].valid && o.tlb@[k].valid);
                    }
                }
                assert(m.repl_ok(m.lru_list@)) by {
                    assert forall|k: int| 0 <= k < m.lru_list@.len() implies {
                        let it = #[trigger] m.lru_list@[k];
                        &&& it.task_belong == CURRENT_TASK
                        &&& 0 <= it.page_number < page_table_size
                        &&& m.pte(it.page_number as int).valid
                        &&& m.pte(it.page_number as int).frame_number == it.frame_number
                    } by {
                        let it = o.lru_list@[k];
                        assert(o.pte(it.page_number as int).valid);
                    }
                }
                assert(m.vmem() =~= o.vmem()) by {
                    assert forall|v: int| 0 <= v < virtual_space implies #[trigger] m.vword(v) == o.vword(v) by {
                        let p = v / (page_size as int);
                        assert(m.pte(p).valid == o.pte(p).valid);
                        assert(m.pte(p).frame_number == o.pte(p).frame_number);
                    }
                }
            }
            return;
        }
        i = i + 1;
    }
    proof {
        let m = *mmu;
        assert(!o.tlb_has(q as int)) by {
            if o.tlb_has(q as int) {
                let j = choose|j: int| 0 <= j < tlb_size && (#[trigger] o.tlb@[j]).valid
                    && o.tlb@[j].page_number == q;
                assert(!(m.tlb@[j].valid && m.tlb@[j].page_number == q));
            }
        }
        assert(!has_line(o.tlb@, q as int));
        assert(!o.tlb_dirty(q as int)) by {
            if o.tlb_dirty(q as int) {
                let j = choose|j: int| 0 <= j < tlb_size && (#[trigger] o.tlb@[j]).valid
                    && o.tlb@[j].page_number == q && o.tlb@[j].modified;
                assert(o.tlb_has(q as int));
            }
        }
    }
}


/// The frame that the next page fault takes over: the last of the LRU list
/// (or the first of the FIFO list).
pub open spec fn victim_of(m: Mmu) -> Item {
    if replace_use_lru {
        m.lru_list@.last()
    } else {
        m.fifo_list@[0]
    }
}

/// The victim's page is written: it goes back to disk before it is dropped.
pub open spec fn victim_dirty(m: Mmu) -> bool {
    let q = victim_of(m).page_number as int;
    m.pte(q).modified || m.tlb_dirty(q)
}

/// The page table once a fault on page `p` evicted the victim's page:
/// that page is absent (modified when it was written), and `p` sits clean
/// in the victim's frame.
pub open spec fn fault_table(m: Mmu, p: int) -> Seq<Entry> {
    let v = victim_of(m);
    let q = v.page_number as int;
    m.tcb.page_table@.update(q, Entry { valid: false, modified: victim_dirty(m), ..m.pte(q) }).update(
        p,
        Entry { valid: true, modified: false, frame_number: v.frame_number, ..m.pte(p) },
    )
}

/// Brings the absent page `page_number` into memory.  The victim frame's
/// page is dropped from the TLB and the page table, written back to disk
/// when it was modified, and the victim frame is loaded from the faulting
/// page's disk block; the replacement list's entry for the frame now names
/// the new page.
#[verifier::rlimit(80)]
#[verifier::spinoff_prover]
pub fn page_fault(mmu: &mut Mmu, page_number: i32)
    requires
        old(mmu).wf(),
        0 <= page_number < page_table_size,
        !old(mmu).pte(page_number as int).valid,
    ensures
        final(mmu).wf(),
        final(mmu).vmem() == old(mmu).vmem(),
        ({
            let v = victim_of(*old(mmu));
            let q = v.page_number as int;
            &&& final(mmu).pte(page_number as int).valid
            &&& !final(mmu).pte(page_number as int).modified
            &&& final(mmu).pte(page_number as int).frame_number == v.frame_number
            &&& !final(mmu).pte(q).valid
            &&& forall|r: int|
                0 <= r < page_table_size && r != q && r != page_number ==> #[trigger] final(mmu).pte(r)
                    == old(mmu).pte(r)
            &&& replace_use_lru ==> final(mmu).lru_list@ == old(mmu).lru_list@.update(
                old(mmu).lru_list@.len() - 1,
                Item { frame_number: v.frame_number, page_number, task_belong: CURRENT_TASK },
            )
            &&& final(mmu).stats.time_cost == if victim_dirty(*old(mmu)) {
                old(mmu).stats.time_cost.wrapping_add(time_disk_access).wrapping_add(
                    time_disk_access,
                )
            } else {
                old(mmu).stats.time_cost.wrapping_add(time_disk_access)
            }
        }),
        !final(mmu).tlb_has(page_number as int),
        final(mmu).tlb@ == tlb_drop(old(mmu).tlb@, victim_of(*old(mmu)).page_number as int),
        final(mmu).tcb.page_table@ == fault_table(*old(mmu), page_number as int),
        final(mmu).stats.tlb_hit == old(mmu).stats.tlb_hit,
        final(mmu).stats.tlb_miss == old(mmu).stats.tlb_miss,
        final(mmu).stats.memory_hit == old(mmu).stats.memory_hit,
        final(mmu).stats.memory_miss == old(mmu).stats.memory_miss,
        final(mmu).stats.replace_count_fifo == old(mmu).stats.replace_count_fifo,
{
    let ghost o = *old(mmu);
    let victim: Item = if replace_use_lru {
        *mmu.lru_list.last_mut().unwrap()
    } else {
        *mmu.fifo_list.peek_mut().unwrap()
    };
    let ghost m0 = *mmu;
    proof {
        assert(m0.lru_list@ =~= o.lru_list@);
        assert forall|q: int| 0 <= q < page_table_size && #[trigger] o.tlb_dirty(q) implies m0.tlb_dirty(q) by {
            let j = choose|j: int| 0 <= j < tlb_size && (#[trigger] o.tlb@[j]).valid
                && o.tlb@[j].page_number == q && o.tlb@[j].modified;
            assert(m0.tlb@[j] == o.tlb@[j]);
        }
        lemma_tlb_marks(o, m0);
        assert(m0.tlb == o.tlb);
        assert forall|q: int| #[trigger] m0.tlb_dirty(q) == o.tlb_dirty(q) by {}
        assert forall|q: int| #[trigger] m0.tlb_has(q) == o.tlb_has(q) by {}
        assert(victim == victim_of(o));
        let k = o.lru_list@.len() - 1;
        assert(o.lru_list@[k] == victim);
        assert(o.pte(victim.page_number as int).valid);
        assert(!o.tlb_has(page_number as int)) by {
            if o.tlb_has(page_number as int) {
                let j = choose|j: int| 0 <= j < tlb_size && (#[trigger] o.tlb@[j]).valid
                    && o.tlb@[j].page_number == page_number;
                assert(o.pte(page_number as int).valid);
            }
        }
    }
    let q = victim.page_number;
    let f = victim.frame_number;
    if victim.task_belong == CURRENT_TASK {
        tlb_invalidate_page(mmu, q);
    }
    let ghost m1 = *mmu;
    proof {
        assert(m0.pte(q as int) == o.pte(q as int));
        assert(m1.pte(q as int).modified == victim_dirty(o));
        assert(m1.pte(q as int).valid && m1.pte(q as int).frame_number == f);
        assert(0 <= f < page_count);
        assert(m1.pte(q as int).disk_address == disk_of(q as int));
        assert(q != page_number);
    }
    let qe = mmu.tcb.page_table[q as usize];
    if qe.modified {
        write_to_disk(mmu, f, qe.disk_address);
    }
    let ghost m2 = *mmu;
    proof {
        assert forall|off: int| 0 <= off < page_size implies #[trigger] m2.disk_word(q as int, off)
            == m1.frame_word(q as int, off) by {
            if !qe.modified {
                assert(!m1.tlb_dirty(q as int));
                assert(m1.page_clean(q as int));
            }
        }
        assert forall|r: int, off: int| 0 <= r < page_table_size && r != q && 0 <= off < page_size implies
            #[trigger] m2.disk_word(r, off) == m1.disk_word(r, off) by {}
    }
    let mut nq = qe;
    nq.valid = false;
    mmu.tcb.page_table.set(q as usize, nq);
    let da = mmu.tcb.page_table[page_number as usize].disk_address;
    proof {
        assert(m1.pte(page_number as int).disk_address == disk_of(page_number as int));
        assert(da == disk_of(page_number as int));
    }
    read_to_memory(mmu, f, da);
    let mut np = mmu.tcb.page_table[page_number as usize];
    np.valid = true;
    np.modified = false;
    np.frame_number = f;
    mmu.tcb.page_table.set(page_number as usize, np);
    if replace_use_lru {
        let r = mmu.lru_list.last_mut().unwrap();
        r.task_belong = CURRENT_TASK;
        r.page_number = page_number;
    } else {
        let r = mmu.fifo_list.peek_mut().unwrap();
        r.task_belong = CURRENT_TASK;
        r.page_number = page_number;
        mmu.fifo_list.pop();
    }
    proof {
        let m = *mmu;
        let p = page_number as int;
        let qq = q as int;
        assert(m.lru_list@ =~= o.lru_list@.update(
            o.lru_list@.len() - 1,
            Item { frame_number: f, page_number, task_belong: CURRENT_TASK },
        ));
        // The page table.
        assert forall|r: int| #![trigger m.pte(r)] 0 <= r < page_table_size && r != qq && r != p implies
            m.pte(r) == m1.pte(r) by {}
        assert forall|r: int| #![trigger m.pte(r)] 0 <= r < page_table_size && r != qq && r != p implies
            m.pte(r) == o.pte(r) by {
            assert(m1.pte(r) == o.pte(r));
        }
        assert(m.pte(p).valid && !m.pte(p).modified && m.pte(p).frame_number == f);
        assert(!m.pte(qq).valid);
        // Frame words: frame f now holds page p's disk block; others as in m1.
        assert forall|r: int, off: int| 0 <= r < page_table_size && r != qq && r != p && m1.pte(r).valid
            && 0 <= off < page_size implies #[trigger] m.frame_word(r, off) == m1.frame_word(r, off) by {
            assert(m1.pte(r).frame_number != f);
            let g = m1.pte(r).frame_number;
            assert(0 <= g < page_count);
            assert(m.pte(r) == m1.pte(r));
            let a = g * page_size + off;
            assert(!(f * page_size <= a < f * page_size + page_size)) by {
                if f * page_size <= a < f * page_size + page_size {
                    lemma_frame_addr(g as int, off, f as int, a - f * page_size);
                }
            }
        }
        assert forall|off: int| 0 <= off < page_size implies #[trigger] m.frame_word(p, off)
            == m1.disk_word(p, off) by {}
        assert forall|r: int, off: int| 0 <= r < page_table_size && r != qq && 0 <= off < page_size implies
            #[trigger] m.disk_word(r, off) == m1.disk_word(r, off) by {
            assert(m2.disk_word(r, off) == m1.disk_word(r, off));
        }
        assert forall|off: int| 0 <= off < page_size implies #[trigger] m.disk_word(qq, off)
            == m1.frame_word(qq, off) by {
            assert(m2.disk_word(qq, off) == m1.frame_word(qq, off));
        }
        // The TLB is as in m1, which has no line for q or p.
        assert(m.tlb == m1.tlb);
        assert(victim.task_belong == CURRENT_TASK);
        assert(m.tlb@ == tlb_drop(o.tlb@, qq));
        assert(m.tcb.page_table@ =~= fault_table(o, p)) by {
            assert(m1.pte(p) == o.pte(p));
            assert(m1.pte(qq).frame_number == o.pte(qq).frame_number);
            assert(m1.pte(qq).disk_address == o.pte(qq).disk_address);
            assert forall|r: int| 0 <= r < m.tcb.page_table@.len() implies #[trigger] m.tcb.page_table@[r]
                == fault_table(o, p)[r] by {
                if r != qq && r != p {
                    assert(m.pte(r) == o.pte(r));
                }
            }
        }
        assert(!m1.tlb_has(p)) by {
            assert(o.tlb_has(p) == m1.tlb_has(p));
        }
        assert forall|r: int| 0 <= r < page_table_size implies #[trigger] m.tlb_dirty(r) == m1.tlb_dirty(r) by {}
        assert(!m.tlb_has(p));
        // Virtual memory.
        assert(m.vmem() =~= m1.vmem()) by {
            assert forall|v: int| 0 <= v < virtual_space implies #[trigger] m.vword(v) == m1.vword(v) by {
                lemma_page_split(v);
                let r = v / (page_size as int);
                let off = v % (page_size as int);
                if r == qq {
                } else if r == p {
                } else if m1.pte(r).valid {
                } else {
                }
            }
        }
        // Well formedness.
        assert(m.table_ok()) by {
            assert forall|r: int| 0 <= r < page_table_size implies (#[trigger] m.pte(r)).disk_address == disk_of(r) by {
                assert(m1.pte(r).disk_address == disk_of(r));
            }
            assert forall|r: int| 0 <= r < page_table_size && (#[trigger] m.pte(r)).valid implies
                0 <= m.pte(r).frame_number < page_count by {
                if r != p {
                    assert(m1.pte(r).valid);
                }
            }
            assert forall|r1: int, r2: int|
                0 <= r1 < page_table_size && 0 <= r2 < page_table_size && r1 != r2 && (#[trigger] m.pte(r1)).valid
                    && (#[trigger] m.pte(r2)).valid implies m.pte(r1).frame_number != m.pte(r2).frame_number by {
                if r1 != p && r2 != p {
                    assert(m1.pte(r1).valid && m1.pte(r2).valid);
                } else if r1 == p {
                    assert(m1.pte(r2).valid);
                    assert(m1.pte(r2).frame_number != m1.pte(qq).frame_number);
                } else {
                    assert(m1.pte(r1).valid);
                    assert(m1.pte(r1).frame_number != m1.pte(qq).frame_number);
                }
            }
            assert forall|r: int| 0 <= r < page_table_size && (#[trigger] m.pte(r)).valid
                && !m.pte(r).modified && !m.tlb_dirty(r) implies m.page_clean(r) by {
                if r != p {
                    assert(m1.pte(r).valid && !m1.pte(r).modified && !m1.tlb_dirty(r));
                    assert(m1.page_clean(r));
                    assert forall|off: int| 0 <= off < page_size implies #[trigger] m.frame_word(r, off)
                        == m.disk_word(r, off) by {
                        assert(m1.frame_word(r, off) == m1.disk_word(r, off));
                    }
                } else {
                    assert forall|off: int| 0 <= off < page_size implies #[trigger] m.frame_word(r, off)
                        == m.disk_word(r, off) by {
                        assert(m.frame_word(p, off) == m1.disk_word(p, off));
                    }
                }
            }
        }
        assert(m.tlb_ok()) by {
            assert forall|j: int| 0 <= j < tlb_size && (#[trigger] m.tlb@[j]).valid implies {
                let pg = m.tlb@[j].page_number as int;
                &&& 0 <= pg < page_table_size
                &&& m.pte(pg).valid
                &&& m.tlb@[j].frame_number == m.pte(pg).frame_number
            } by {
                assert(m1.tlb@[j].valid);
                let pg = m1.tlb@[j].page_number as int;
                assert(m1.pte(pg).valid);
                if pg == qq {
                    assert(m1.tlb_has(qq));
                }
                if pg == p {
                    assert(m1.tlb_has(p));
                }
            }
            assert forall|j: int, k: int|
                0 <= j < tlb_size && 0 <= k < tlb_size && j != k && (#[trigger] m.tlb@[j]).valid
                    && (#[trigger] m.tlb@[k]).valid implies m.tlb@[j].page_number
                    != m.tlb@[k].page_number by {
                assert(m1.tlb@[j].valid && m1.tlb@[k].valid);
            }
        }
        assert(m.repl_ok(m.lru_list@)) by {
            let last = o.lru_list@.len() - 1;
            assert forall|k: int| 0 <= k < m.lru_list@.len() implies {
                let it = #[trigger] m.lru_list@[k];
                &&& it.task_belong == CURRENT_TASK
                &&& 0 <= it.page_number < page_table_size
                &&& m.pte(it.page_number as int).valid
                &&& m.pte(it.page_number as int).frame_number == it.frame_number
            } by {
                if k != last {
                    let it = o.lru_list@[k];
                    assert(it.frame_number != f);
                    assert(o.pte(it.page_number as int).valid);
                    assert(it.page_number != q);
                    assert(it.page_number != page_number);
                    assert(m.pte(it.page_number as int) == o.pte(it.page_number as int));
                }
            }
            assert forall|i: int, j: int|
                0 <= i < m.lru_list@.len() && 0 <= j < m.lru_list@.len() && i != j implies
                (#[trigger] m.lru_list@[i]).frame_number != (#[trigger] m.lru_list@[j]).frame_number by {
                assert(o.lru_list@[i].frame_number != o.lru_list@[j].frame_number);
            }
        }
    }
}


/// `s` with its first item equal to `probe` (naming the same frame) taken
/// out and `probe` itself put in front (unchanged when no item is equal).
pub open spec fn moved_to_front(s: Seq<Item>, probe: Item) -> Seq<Item> {
    let k = first_eq(s, probe);
    if k < s.len() {
        seq![probe] + s.remove(k as int)
    } else {
        s
    }
}

/// The counters after a translation of `vaddr` starting from `o`: a TLB hit
/// counts a TLB hit and a memory hit; a miss counts a TLB miss and a page
/// table access, then a memory hit, or a memory miss and the disk transfers
/// of a page fault.
pub open spec fn map_stats(o: Mmu, vaddr: int) -> Stats {
    let p = vaddr / (page_size as int);
    let st = o.stats;
    let t1 = st.time_cost.wrapping_add(time_tlb_access);
    if o.tlb_has(p) {
        Stats {
            tlb_hit: st.tlb_hit.wrapping_add(1),
            memory_hit: st.memory_hit.wrapping_add(1),
            time_cost: t1,
            ..st
        }
    } else {
        let t2 = t1.wrapping_add(time_memory_access);
        if o.pte(p).valid {
            Stats {
                tlb_miss: st.tlb_miss.wrapping_add(1),
                memory_hit: st.memory_hit.wrapping_add(1),
                time_cost: t2,
                ..st
            }
        } else {
            let t3 = if victim_dirty(o) {
                t2.wrapping_add(time_disk_access).wrapping_add(time_disk_access)
            } else {
                t2.wrapping_add(time_disk_access)
            };
            Stats {
                tlb_miss: st.tlb_miss.wrapping_add(1),
                memory_miss: st.memory_miss.wrapping_add(1),
                time_cost: t3,
                ..st
            }
        }
    }
}

/// The replacement list after a translation of `vaddr` starting from `o`:
/// unchanged on a TLB hit; otherwise the entry of the page's frame moves to
/// the front, after a page fault has given the victim's entry to the page.
pub open spec fn map_lru(o: Mmu, vaddr: int) -> Seq<Item> {
    let p = vaddr / (page_size as int);
    if o.tlb_has(p) || !replace_use_lru {
        o.lru_list@
    } else if o.pte(p).valid {
        moved_to_front(
            o.lru_list@,
            Item {
                frame_number: o.pte(p).frame_number,
                page_number: p as i32,
                task_belong: CURRENT_TASK,
            },
        )
    } else {
        let v = victim_of(o);
        let s = o.lru_list@.update(
            o.lru_list@.len() - 1,
            Item { frame_number: v.frame_number, page_number: p as i32, task_belong: CURRENT_TASK },
        );
        moved_to_front(
            s,
            Item { frame_number: v.frame_number, page_number: p as i32, task_belong: CURRENT_TASK },
        )
    }
}

/// The TLB and the page table before the TLB is updated on a miss of
/// page `p`: after the fault when `p` was absent, with `p` marked modified
/// for a write.
pub open spec fn missed_tables(o: Mmu, p: int, write: bool) -> (Seq<Line>, Seq<Entry>) {
    let (t1, pt1) = if o.pte(p).valid {
        (o.tlb@, o.tcb.page_table@)
    } else {
        (tlb_drop(o.tlb@, victim_of(o).page_number as int), fault_table(o, p))
    };
    let pt2 = if write {
        pt1.update(p, Entry { modified: true, ..pt1[p] })
    } else {
        pt1
    };
    (t1, pt2)
}

/// The TLB after a translation of `vaddr` starting from `o`: on a hit the
/// line is marked; on a miss the translation is cached as `tlb_update`
/// caches it.
pub open spec fn map_tlb(o: Mmu, vaddr: int, write: bool) -> Seq<Line> {
    let p = vaddr / (page_size as int);
    if o.tlb_has(p) {
        tlb_touch(o.tlb@, p, write)
    } else {
        let (t1, pt2) = missed_tables(o, p, write);
        tlb_after_update(t1, p as i32, pt2[p].frame_number)
    }
}

/// The page table after a translation of `vaddr` starting from `o`.
pub open spec fn map_table(o: Mmu, vaddr: int, write: bool) -> Seq<Entry> {
    let p = vaddr / (page_size as int);
    if o.tlb_has(p) {
        o.tcb.page_table@
    } else {
        let (t1, pt2) = missed_tables(o, p, write);
        table_after_update(t1, pt2)
    }
}

/// Moving an entry of a replacement list to the front keeps it a good one.
pub proof fn lemma_repl_ok_move(m: Mmu, s: Seq<Item>, k: int, probe: Item)
    requires
        m.repl_ok(s),
        0 <= k < s.len(),
        probe.frame_number == s[k].frame_number,
        probe.task_belong == CURRENT_TASK,
        0 <= probe.page_number < page_table_size,
        m.pte(probe.page_number as int).valid,
        m.pte(probe.page_number as int).frame_number == probe.frame_number,
    ensures
        m.repl_ok(seq![probe] + s.remove(k)),
{
    let t = seq![probe] + s.remove(k);
    assert forall|i: int| 1 <= i < t.len() implies t[i] == s[if i <= k { i - 1 } else { i }] by {}
    assert forall|i: int| 0 <= i < t.len() implies {
        let it = #[trigger] t[i];
        &&& it.task_belong == CURRENT_TASK
        &&& 0 <= it.page_number < page_table_size
        &&& m.pte(it.page_number as int).valid
        &&& m.pte(it.page_number as int).frame_number == it.frame_number
    } by {
        if i > 0 {
            let j = if i <= k { i - 1 } else { i };
            assert(t[i] == s[j]);
        }
    }
    assert forall|i: int, j: int| 0 <= i < t.len() && 0 <= j < t.len() && i != j implies
        (#[trigger] t[i]).frame_number != (#[trigger] t[j]).frame_number by {
        let i0 = if i == 0 { k } else if i <= k { i - 1 } else { i };
        let j0 = if j == 0 { k } else if j <= k { j - 1 } else { j };
        assert(t[i].frame_number == s[i0].frame_number);
        assert(t[j].frame_number == s[j0].frame_number);
    }
}

/// Translates virtual address `vaddr` to a physical one, through the TLB
/// when it caches the page, else through the page table, bringing the page
/// in on a fault; a miss refreshes the page's place in the replacement list
/// and caches the translation.  A write marks the page modified.
#[verifier::rlimit(80)]
#[verifier::spinoff_prover]
pub fn address_map(mmu: &mut Mmu, vaddr: i32, write: bool) -> (r: i32)
    requires
        old(mmu).wf(),
        0 <= vaddr < virtual_space,
    ensures
        final(mmu).wf(),
        final(mmu).vmem() == old(mmu).vmem(),
        ({
            let p = vaddr / page_size;
            let off = vaddr % page_size;
            &&& final(mmu).pte(p as int).valid
            &&& r == final(mmu).pte(p as int).frame_number * page_size + off
            &&& 0 <= r < memory_size
            &&& write ==> final(mmu).pte(p as int).modified || final(mmu).tlb_dirty(p as int)
            &&& final(mmu).tlb_has(p as int)
        }),
        final(mmu).stats == map_stats(*old(mmu), vaddr as int),
        final(mmu).lru_list@ == map_lru(*old(mmu), vaddr as int),
        final(mmu).tlb@ == map_tlb(*old(mmu), vaddr as int, write),
        final(mmu).tcb.page_table@ == map_table(*old(mmu), vaddr as int, write),
{
    let ghost o = *old(mmu);
    let page_number = vaddr / page_size;
    let offset = vaddr % page_size;
    proof {
        lemma_page_split(vaddr as int);
    }
    let physical_address = tlb_search(mmu, vaddr, write);
    let ghost ma = *mmu;
    if physical_address != -1 {
        mmu.stats.tlb_hit = mmu.stats.tlb_hit.wrapping_add(1);
        mmu.stats.memory_hit = mmu.stats.memory_hit.wrapping_add(1);
        proof {
            let m = *mmu;
            lemma_stats_only(ma, m);
            assert(m.pte(page_number as int) == o.pte(page_number as int));
            assert(0 <= o.pte(page_number as int).frame_number < page_count);
            assert(m.stats == map_stats(o, vaddr as int));
            let j = choose|j: int| 0 <= j < tlb_size && (#[trigger] o.tlb@[j]).valid
                && o.tlb@[j].page_number == page_number;
            assert(m.tlb@[j].valid && m.tlb@[j].page_number == page_number);
            assert(m.tlb == ma.tlb);
            assert(m.tcb == o.tcb);
        }
        return physical_address;
    }
    mmu.stats.tlb_miss = mmu.stats.tlb_miss.wrapping_add(1);
    mmu.stats.time_cost = mmu.stats.time_cost.wrapping_add(time_memory_access);
    let ghost m1 = *mmu;
    proof {
        assert(ma.tlb == o.tlb);
        lemma_stats_only(ma, m1);
        lemma_tlb_same(o, ma);
        assert forall|p: int| #[trigger] ma.pte(p) == o.pte(p) by {}
        assert(m1.pte(page_number as int) == o.pte(page_number as int));
        assert(victim_of(m1) == victim_of(o));
        assert(victim_dirty(m1) == victim_dirty(o)) by {
            assert(m1.pte(victim_of(o).page_number as int) == o.pte(victim_of(o).page_number as int));
            assert(m1.tlb_dirty(victim_of(o).page_number as int) == o.tlb_dirty(victim_of(o).page_number as int));
        }
    }
    if !mmu.tcb.page_table[page_number as usize].valid {
        page_fault(mmu, page_number);
        let ghost mb = *mmu;
        mmu.stats.memory_miss = mmu.stats.memory_miss.wrapping_add(1);
        proof {
            lemma_stats_only(mb, *mmu);
        }
    } else {
        mmu.stats.memory_hit = mmu.stats.memory_hit.wrapping_add(1);
        proof {
            lemma_stats_only(m1, *mmu);
        }
    }
    let ghost m2 = *mmu;
    proof {
        assert(m2.wf());
        assert(m2.pte(page_number as int).valid);
        assert(m2.stats == map_stats(o, vaddr as int));
        if o.pte(page_number as int).valid {
            assert(m2.tlb == o.tlb);
        }
        assert(!m2.tlb_has(page_number as int));
    }
    let frame = mmu.tcb.page_table[page_number as usize].frame_number;
    proof {
        assert(0 <= frame < page_count);
    }
    let phys = frame * page_size + offset;
    if replace_use_lru {
        let probe = Item { frame_number: frame, page_number: page_number, task_belong: CURRENT_TASK };
        mmu.lru_list.move_to_peek(&probe);
        proof {
            let m = *mmu;
            let k = first_eq(m2.lru_list@, probe);
            if k < m2.lru_list@.len() {
                crate::linkedlist::lemma_first_eq(m2.lru_list@, probe);
                lemma_repl_ok_move(m2, m2.lru_list@, k as int, probe);
            }
            lemma_lru_only(m2, m);
            assert(m.lru_list@ == map_lru(o, vaddr as int));
        }
    }
    let ghost m3 = *mmu;
    proof {
        if !replace_use_lru {
            lemma_stats_only(m2, m3);
        }
        assert forall|q: int| #[trigger] m3.pte(q) == m2.pte(q) by {}
        assert forall|q: int| #[trigger] m3.tlb_dirty(q) == m2.tlb_dirty(q) by {}
        assert forall|q: int| #[trigger] m3.tlb_has(q) == m2.tlb_has(q) by {}
        assert(m3.wf());
    }
    if write {
        let mut e = mmu.tcb.page_table[page_number as usize];
        e.modified = true;
        mmu.tcb.page_table.set(page_number as usize, e);
        proof {
            let m = *mmu;
            let p = page_number as int;
            assert forall|q: int| 0 <= q < page_table_size && q != p implies #[trigger] m.pte(q) == m3.pte(q) by {}
            lemma_tlb_same(m3, m);
            assert(m.table_ok()) by {
                assert forall|q: int| 0 <= q < page_table_size implies (#[trigger] m.pte(q)).disk_address == disk_of(q) by {
                    assert(m3.pte(q).disk_address == disk_of(q));
                }
                assert forall|q: int| 0 <= q < page_table_size && (#[trigger] m.pte(q)).valid implies
                    0 <= m.pte(q).frame_number < page_count by {
                    assert(m3.pte(q).valid);
                }
                assert forall|q1: int, q2: int|
                    0 <= q1 < page_table_size && 0 <= q2 < page_table_size && q1 != q2 && (#[trigger] m.pte(q1)).valid
                        && (#[trigger] m.pte(q2)).valid implies m.pte(q1).frame_number != m.pte(q2).frame_number by {
                    assert(m3.pte(q1).valid && m3.pte(q2).valid);
                }
                assert forall|q: int| 0 <= q < page_table_size && (#[trigger] m.pte(q)).valid
                    && !m.pte(q).modified && !m.tlb_dirty(q) implies m.page_clean(q) by {
                    assert(m3.pte(q).valid && !m3.pte(q).modified && !m3.tlb_dirty(q));
                    assert forall|off: int| 0 <= off < page_size implies #[trigger] m.frame_word(q, off)
                        == m.disk_word(q, off) by {
                        assert(m3.frame_word(q, off) == m3.disk_word(q, off));
                    }
                }
            }
            assert(m.tlb_ok()) by {
                assert forall|j: int| 0 <= j < tlb_size && (#[trigger] m.tlb@[j]).valid implies {
                    let pg = m.tlb@[j].page_number as int;
                    &&& 0 <= pg < page_table_size
                    &&& m.pte(pg).valid
                    &&& m.tlb@[j].frame_number == m.pte(pg).frame_number
                } by {
                    assert(m3.tlb@[j].valid);
                }
            }
            assert(m.repl_ok(m.lru_list@)) by {
                assert forall|k: int| 0 <= k < m.lru_list@.len() implies {
                    let it = #[trigger] m.lru_list@[k];
                    &&& it.task_belong == CURRENT_TASK
                    &&& 0 <= it.page_number < page_table_size
                    &&& m.pte(it.page_number as int).valid
                    &&& m.pte(it.page_number as int).frame_number == it.frame_number
                } by {
                    let it = m3.lru_list@[k];
                    assert(m3.pte(it.page_number as int).valid);
                }
            }
            assert(m.vmem() =~= m3.vmem()) by {
                assert forall|v: int| 0 <= v < virtual_space implies #[trigger] m.vword(v) == m3.vword(v) by {
                    let q = v / (page_size as int);
                    assert(m.pte(q).valid == m3.pte(q).valid);
                    assert(m.pte(q).frame_number == m3.pte(q).frame_number);
                }
            }
        }
    }
    let ghost m4 = *mmu;
    proof {
        assert(m4.pte(page_number as int).valid);
        assert(m4.pte(page_number as int).frame_number == frame);
        assert(!m4.tlb_has(page_number as int));
        let (t1, pt2) = missed_tables(o, page_number as int, write);
        assert(m4.tlb@ == t1);
        assert(m4.tcb.page_table@ =~= pt2);
    }
    tlb_update(mmu, page_number, frame);
    proof {
        let m = *mmu;
        assert(m.pte(page_number as int).valid);
        if write {
            assert(m4.pte(page_number as int).modified);
            assert(m.pte(page_number as int).modified);
        }
    }
    phys
}

/// Reads the word at virtual address `vaddr`, charging one word access.
pub fn read_memory(mmu: &mut Mmu, vaddr: i32) -> (r: u32)
    requires
        old(mmu).wf(),
        0 <= vaddr < virtual_space,
    ensures
        final(mmu).wf(),
        r == old(mmu).vmem()[vaddr as int],
        final(mmu).vmem() == old(mmu).vmem(),
        final(mmu).stats == (Stats {
            time_cost: map_stats(*old(mmu), vaddr as int).time_cost.wrapping_add(time_cache_access),
            ..map_stats(*old(mmu), vaddr as int)
        }),
        final(mmu).tlb@ == map_tlb(*old(mmu), vaddr as int, false),
        final(mmu).tcb.page_table@ == map_table(*old(mmu), vaddr as int, false),
        final(mmu).tlb_has(vaddr / page_size),
        final(mmu).lru_list@ == map_lru(*old(mmu), vaddr as int),
{
    let physical_address = address_map(mmu, vaddr, false);
    let ghost m1 = *mmu;
    let data = mmu.memory[physical_address as usize];
    mmu.stats.time_cost = mmu.stats.time_cost.wrapping_add(time_cache_access);
    proof {
        lemma_stats_only(m1, *mmu);
        lemma_page_split(vaddr as int);
        assert(mmu.vword(vaddr as int) == data);
    }
    data
}

/// Writes `data` at virtual address `vaddr`, charging one word access.
pub fn write_memory(mmu: &mut Mmu, vaddr: i32, data: u32)
    requires
        old(mmu).wf(),
        0 <= vaddr < virtual_space,
    ensures
        final(mmu).wf(),
        final(mmu).vmem() == old(mmu).vmem().update(vaddr as int, data),
        final(mmu).stats == (Stats {
            time_cost: map_stats(*old(mmu), vaddr as int).time_cost.wrapping_add(time_cache_access),
            ..map_stats(*old(mmu), vaddr as int)
        }),
        final(mmu).tlb@ == map_tlb(*old(mmu), vaddr as int, true),
        final(mmu).tcb.page_table@ == map_table(*old(mmu), vaddr as int, true),
        final(mmu).tlb_has(vaddr / page_size),
        final(mmu).lru_list@ == map_lru(*old(mmu), vaddr as int),
{
    let physical_address = address_map(mmu, vaddr, true);
    let ghost m1 = *mmu;
    mmu.memory.set(physical_address as usize, data);
    mmu.stats.time_cost = mmu.stats.time_cost.wrapping_add(time_cache_access);
    proof {
        let m = *mmu;
        let p = vaddr / page_size;
        let off = vaddr % page_size;
        lemma_page_split(vaddr as int);
        assert forall|q: int| #[trigger] m.pte(q) == m1.pte(q) by {}
        lemma_tlb_same(m1, m);
        assert forall|q: int, o2: int| 0 <= q < page_table_size && q != p && m1.pte(q).valid && 0 <= o2 < page_size implies
            #[trigger] m.frame_word(q, o2) == m1.frame_word(q, o2) by {
            let g = m1.pte(q).frame_number;
            assert(g != m1.pte(p as int).frame_number);
            if g * page_size + o2 == physical_address {
                lemma_frame_addr(g as int, o2, m1.pte(p as int).frame_number as int, off as int);
            }
        }
        assert(m.table_ok()) by {
            assert forall|q: int| 0 <= q < page_table_size && (#[trigger] m.pte(q)).valid
                && !m.pte(q).modified && !m.tlb_dirty(q) implies m.page_clean(q) by {
                assert(m1.page_clean(q));
                assert forall|o2: int| 0 <= o2 < page_size implies #[trigger] m.frame_word(q, o2)
                    == m.disk_word(q, o2) by {
                    assert(m1.frame_word(q, o2) == m1.disk_word(q, o2));
                }
            }
        }
        assert(m.tlb_ok()) by {
            assert forall|j: int| 0 <= j < tlb_size && (#[trigger] m.tlb@[j]).valid implies {
                let pg = m.tlb@[j].page_number as int;
                &&& 0 <= pg < page_table_size
                &&& m.pte(pg).valid
                &&& m.tlb@[j].frame_number == m.pte(pg).frame_number
            } by {
                assert(m1.tlb@[j].valid);
            }
        }
        assert(m.repl_ok(m.lru_list@)) by {
            assert forall|k: int| 0 <= k < m.lru_list@.len() implies {
                let it = #[trigger] m.lru_list@[k];
                &&& it.task_belong == CURRENT_TASK
                &&& 0 <= it.page_number < page_table_size
                &&& m.pte(it.page_number as int).valid
                &&& m.pte(it.page_number as int).frame_number == it.frame_number
            } by {
                let it = m1.lru_list@[k];
                assert(m1.pte(it.page_number as int).valid);
            }
        }
        assert(m.vmem() =~= m1.vmem().update(vaddr as int, data)) by {
            assert forall|v: int| 0 <= v < virtual_space implies #[trigger] m.vmem()[v]
                == m1.vmem().update(vaddr as int, data)[v] by {
                lemma_page_split(v);
                let q = v / (page_size as int);
                let o2 = v % (page_size as int);
                if v == vaddr {
                } else if q == p {
                    assert(o2 != off);
                    if m.pte(q).frame_number * page_size + o2 == physical_address {
                        lemma_frame_addr(m.pte(q).frame_number as int, o2, m1.pte(p as int).frame_number as int, off as int);
                    }
                } else if m1.pte(q).valid {
                    assert(m.frame_word(q, o2) == m1.frame_word(q, o2));
                } else {
                }
            }
        }
    }
}


/// The page table and TLB are ready and pages 0 up to `page_count` sit in
/// the frames of the same numbers; only the replacement list is missing.
pub open spec fn tables_ready(m: Mmu) -> bool {
    &&& m.sizes_ok()
    &&& m.table_ok()
    &&& m.tlb_ok()
    &&& forall|i: int| 0 <= i < page_count ==> (#[trigger] m.pte(i)).valid && m.pte(i).frame_number == i
}

/// `t` charged `n` disk transfers, counting modulo 2^64.
pub open spec fn disk_charge(t: u64, n: nat) -> u64
    decreases n,
{
    if n == 0 {
        t
    } else {
        disk_charge(t, (n - 1) as nat).wrapping_add(time_disk_access)
    }
}

/// Gives the task a page table of `page_table_size` entries (keeping the
/// entries it had, adding empty ones), sets every entry's disk block, and
/// loads pages 0 up to `page_count` into the frames of the same numbers.
#[verifier::rlimit(60)]
#[verifier::spinoff_prover]
pub fn page_table_init(mmu: &mut Mmu)
    requires
        old(mmu).memory@.len() == memory_size,
        old(mmu).disk@.len() == disk_size,
    ensures
        final(mmu).tcb.page_table@.len() == page_table_size,
        forall|p: int| 0 <= p < page_table_size ==> (#[trigger] final(mmu).pte(p)).disk_address == disk_of(p),
        forall|p: int|
            0 <= p < page_count ==> (#[trigger] final(mmu).pte(p)).valid && final(mmu).pte(p).frame_number == p,
        forall|p: int|
            page_count <= p < old(mmu).tcb.page_table@.len() && p < page_table_size ==> (#[trigger] final(mmu).pte(
                p,
            )).valid == old(mmu).pte(p).valid && final(mmu).pte(p).frame_number == old(mmu).pte(
                p,
            ).frame_number,
        forall|p: int|
            page_count <= p < page_table_size && old(mmu).tcb.page_table@.len() <= p ==> !(
            #[trigger] final(mmu).pte(p)).valid,
        forall|p: int, off: int|
            0 <= p < page_count && 0 <= off < page_size ==> #[trigger] final(mmu).frame_word(p, off)
                == final(mmu).disk_word(p, off),
        final(mmu).memory@.len() == memory_size,
        final(mmu).disk == old(mmu).disk,
        final(mmu).stats == (Stats {
            time_cost: disk_charge(old(mmu).stats.time_cost, page_count as nat),
            ..old(mmu).stats
        }),
        final(mmu).tlb == old(mmu).tlb,
        final(mmu).lru_list == old(mmu).lru_list,
        final(mmu).fifo_list == old(mmu).fifo_list,
        (forall|k: int| 0 <= k < old(mmu).tcb.page_table@.len() ==> !(#[trigger] old(mmu).pte(k)).valid)
            && old(mmu).tlb@.len() == tlb_size && (forall|i: int|
            0 <= i < tlb_size ==> !(#[trigger] old(mmu).tlb@[i]).valid) ==> tables_ready(*final(mmu)),
{
    let ghost o = *old(mmu);
    let d = Entry::default();
    mmu.tcb.page_table.resize(16, d);
    proof {
        assert forall|k: int| o.tcb.page_table@.len() <= k < page_table_size implies !(#[trigger] mmu.pte(k)).valid
            && mmu.pte(k).frame_number == 0 by {
            if o.tcb.page_table@.len() < page_table_size {
                assert(cloned::<Entry>(d, mmu.tcb.page_table@[k]));
            }
        }
        assert forall|k: int| 0 <= k < o.tcb.page_table@.len() && k < page_table_size implies
            #[trigger] mmu.pte(k) == o.pte(k) by {
            if o.tcb.page_table@.len() < page_table_size {
                assert(mmu.tcb.page_table@.subrange(0, o.tcb.page_table@.len() as int)[k] == o.pte(k));
            } else {
                assert(mmu.tcb.page_table@ == o.tcb.page_table@.subrange(0, 16));
            }
        }
    }
    let ghost m0 = *mmu;
    let mut i: i32 = 0;
    while i < page_table_size
        invariant
            0 <= i <= page_table_size,
            mmu.tcb.page_table@.len() == page_table_size,
            mmu.memory == o.memory,
            mmu.disk == o.disk,
            mmu.tlb == o.tlb,
            mmu.lru_list == o.lru_list,
            mmu.fifo_list == o.fifo_list,
            mmu.stats == o.stats,
            forall|p: int| 0 <= p < i ==> (#[trigger] mmu.pte(p)).disk_address == disk_of(p),
            forall|p: int|
                0 <= p < page_table_size ==> (#[trigger] mmu.pte(p)).valid == m0.pte(p).valid
                    && mmu.pte(p).frame_number == m0.pte(p).frame_number,
        decreases page_table_size - i,
    {
        let ghost mb = *mmu;
        let mut e = mmu.tcb.page_table[i as usize];
        e.disk_address = start_address + i * page_size;
        mmu.tcb.page_table.set(i as usize, e);
        proof {
            let m = *mmu;
            assert forall|p: int| #![trigger m.pte(p)] 0 <= p < page_table_size && p != i implies m.pte(p) == mb.pte(p) by {}
            assert(m.pte(i as int).disk_address == disk_of(i as int));
            assert(m.pte(i as int).valid == mb.pte(i as int).valid);
            assert(m.pte(i as int).frame_number == mb.pte(i as int).frame_number);
        }
        i = i + 1;
    }
    let ghost m1 = *mmu;
    i = 0;
    while i < page_count
        invariant
            0 <= i <= page_count,
            mmu.tcb.page_table@.len() == page_table_size,
            mmu.memory@.len() == memory_size,
            mmu.disk == o.disk,
            mmu.disk@.len() == disk_size,
            mmu.tlb == o.tlb,
            mmu.lru_list == o.lru_list,
            mmu.fifo_list == o.fifo_list,
            mmu.stats == (Stats { time_cost: disk_charge(o.stats.time_cost, i as nat), ..o.stats }),
            forall|p: int| 0 <= p < page_table_size ==> (#[trigger] mmu.pte(p)).disk_address == disk_of(p),
            forall|p: int|
                0 <= p < i ==> (#[trigger] mmu.pte(p)).valid && mmu.pte(p).frame_number == p,
            forall|p: int|
                i <= p < page_table_size ==> (#[trigger] mmu.pte(p)).valid == m0.pte(p).valid
                    && mmu.pte(p).frame_number == m0.pte(p).frame_number,
            forall|p: int, off: int|
                0 <= p < i && 0 <= off < page_size ==> #[trigger] mmu.frame_word(p, off)
                    == mmu.disk_word(p, off),
        decreases page_count - i,
    {
        let ghost mb = *mmu;
        read_to_memory(mmu, i, start_address + i * page_size);
        let mut e = mmu.tcb.page_table[i as usize];
        e.frame_number = i;
        e.valid = true;
        mmu.tcb.page_table.set(i as usize, e);
        proof {
            let m = *mmu;
            assert forall|p: int| #![trigger m.pte(p)] 0 <= p < page_table_size && p != i implies m.pte(p) == mb.pte(p) by {}
            assert(m.pte(i as int).disk_address == disk_of(i as int)) by {
                assert(mb.pte(i as int).disk_address == disk_of(i as int));
            }
            assert forall|p: int, off: int| 0 <= p <= i && 0 <= off < page_size implies
                #[trigger] m.frame_word(p, off) == m.disk_word(p, off) by {
                if p < i {
                    assert(mb.frame_word(p, off) == mb.disk_word(p, off));
                    assert(m.pte(p) == mb.pte(p));
                    let a = p * page_size + off;
                    assert(!(i * page_size <= a < i * page_size + page_size)) by {
                        if i * page_size <= a < i * page_size + page_size {
                            lemma_frame_addr(p, off, i as int, a - i * page_size);
                        }
                    }
                }
            }
        }
        i = i + 1;
    }
    proof {
        let m = *mmu;
        let oldlen = o.tcb.page_table@.len();
        if (forall|k: int| 0 <= k < oldlen ==> !(#[trigger] o.pte(k)).valid) && o.tlb@.len() == tlb_size
            && (forall|i: int| 0 <= i < tlb_size ==> !(#[trigger] o.tlb@[i]).valid) {
            assert forall|p: int| page_count <= p < page_table_size implies !(#[trigger] m.pte(p)).valid by {
                if p < oldlen {
                    assert(m0.pte(p) == o.pte(p));
                }
            }
            assert(m.tlb_ok());
            assert(m.table_ok()) by {
                assert forall|p: int| 0 <= p < page_table_size && (#[trigger] m.pte(p)).valid implies
                    0 <= m.pte(p).frame_number < page_count by {
                    if p >= page_count {
                        assert(!m.pte(p).valid);
                    }
                }
                assert forall|p: int, q: int|
                    0 <= p < page_table_size && 0 <= q < page_table_size && p != q && (#[trigger] m.pte(p)).valid
                        && (#[trigger] m.pte(q)).valid implies m.pte(p).frame_number != m.pte(q).frame_number by {
                    if p >= page_count {
                        assert(!m.pte(p).valid);
                    }
                    if q >= page_count {
                        assert(!m.pte(q).valid);
                    }
                }
                assert forall|p: int| 0 <= p < page_table_size && (#[trigger] m.pte(p)).valid && !m.pte(p).modified
                    && !m.tlb_dirty(p) implies m.page_clean(p) by {
                    if p >= page_count {
                        assert(!m.pte(p).valid);
                    }
                    assert forall|off: int| 0 <= off < page_size implies #[trigger] m.frame_word(p, off)
                        == m.disk_word(p, off) by {}
                }
            }
        }
    }
}

/// Fills the LRU list with one entry per frame, frame `i` holding page `i`,
/// pushing frame 0 first so that it ends up last.
pub fn lru_list_init(mmu: &mut Mmu)
    requires
        tables_ready(*old(mmu)),
        old(mmu).fifo_list.wf(),
    ensures
        final(mmu).lru_list@ == Seq::new(
            page_count as nat,
            |i: int|
                Item {
                    frame_number: (page_count - 1 - i) as i32,
                    page_number: (page_count - 1 - i) as i32,
                    task_belong: CURRENT_TASK,
                },
        ),
        final(mmu).wf(),
        final(mmu).vmem() == old(mmu).vmem(),
        final(mmu).memory == old(mmu).memory,
        final(mmu).disk == old(mmu).disk,
        final(mmu).tlb == old(mmu).tlb,
        final(mmu).tcb == old(mmu).tcb,
        final(mmu).stats == old(mmu).stats,
        final(mmu).fifo_list == old(mmu).fifo_list,
{
    mmu.lru_list = Linkedlist::new();
    let mut i: i32 = 0;
    while i < page_count
        invariant
            0 <= i <= page_count,
            mmu.lru_list.wf(),
            mmu.lru_list@ == Seq::new(
                i as nat,
                |j: int|
                    Item {
                        frame_number: (i - 1 - j) as i32,
                        page_number: (i - 1 - j) as i32,
                        task_belong: CURRENT_TASK,
                    },
            ),
            mmu.memory == old(mmu).memory,
            mmu.disk == old(mmu).disk,
            mmu.tlb == old(mmu).tlb,
            mmu.tcb == old(mmu).tcb,
            mmu.stats == old(mmu).stats,
            mmu.fifo_list == old(mmu).fifo_list,
        decreases page_count - i,
    {
        let s = Item { task_belong: CURRENT_TASK, page_number: i, frame_number: i };
        let ghost before = mmu.lru_list@;
        mmu.lru_list.push(s);
        proof {
            assert(mmu.lru_list@ =~= Seq::new(
                (i + 1) as nat,
                |j: int|
                    Item {
                        frame_number: (i - j) as i32,
                        page_number: (i - j) as i32,
                        task_belong: CURRENT_TASK,
                    },
            ));
        }
        i = i + 1;
    }
    proof {
        let o = *old(mmu);
        let m = *mmu;
        assert(m.repl_ok(m.lru_list@) == o.repl_ok(m.lru_list@)) by {
            assert forall|p: int| #[trigger] m.pte(p) == o.pte(p) by {}
        }
        assert(o.repl_ok(m.lru_list@)) by {
            assert forall|k: int| 0 <= k < m.lru_list@.len() implies {
                let it = #[trigger] m.lru_list@[k];
                &&& it.task_belong == CURRENT_TASK
                &&& 0 <= it.page_number < page_table_size
                &&& o.pte(it.page_number as int).valid
                &&& o.pte(it.page_number as int).frame_number == it.frame_number
            } by {
                assert(o.pte(page_count - 1 - k).valid);
            }
        }
        lemma_lru_only(o, m);
    }
}

} // verus!
