//! Workloads for the memory simulator: filling the disk with pseudo-random
//! words and sorting the task's virtual memory through the MMU.
use vstd::prelude::*;
use crate::mmuconf::{
    Mmu, Stats, disk_size, map_lru, map_stats, map_table, map_tlb, read_memory, time_cache_access, virtual_space,
    write_memory,
};

verus! {

/// One step of the xorshift generator (shifts 13, 17, 5).
pub open spec fn xorshift(s: u32) -> u32 {
    let a = s ^ (s << 13u32);
    let b = a ^ (a >> 17u32);
    b ^ (b << 5u32)
}

/// The generator's state after `n` steps from `s`.
pub open spec fn xorshift_n(s: u32, n: nat) -> u32
    decreases n,
{
    if n == 0 {
        s
    } else {
        xorshift(xorshift_n(s, (n - 1) as nat))
    }
}

/// The state of the pseudo-random generator.
pub struct Rng {
    pub seed: u32,
}

impl Rng {
    /// The generator with its initial seed.
    pub fn new() -> (r: Rng)
        ensures
            r.seed == 1919810,
    {
        Rng { seed: 1919810 }
    }
}

/// Steps the generator and returns its new state.
pub fn gen_rand(rng: &mut Rng) -> (r: u32)
    ensures
        r == xorshift(old(rng).seed),
        final(rng).seed == r,
{
    rng.seed = rng.seed ^ (rng.seed << 13u32);
    rng.seed = rng.seed ^ (rng.seed >> 17u32);
    rng.seed = rng.seed ^ (rng.seed << 5u32);
    rng.seed
}

/// Fills the disk with pseudo-random words of `[l, r]`: word `i` is the
/// generator's `i + 1`-th value reduced into the range.
pub fn random_initialize(mmu: &mut Mmu, rng: &mut Rng, l: u32, r: u32)
    requires
        old(mmu).disk@.len() == disk_size,
        l <= r,
        r - l < u32::MAX,
    ensures
        final(mmu).disk@.len() == disk_size,
        forall|i: int|
            0 <= i < disk_size ==> #[trigger] final(mmu).disk@[i] == xorshift_n(old(rng).seed, (i + 1) as nat) % ((r - l
                + 1) as u32) + l,
        final(rng).seed == xorshift_n(old(rng).seed, disk_size as nat),
        *final(mmu) == (Mmu { disk: final(mmu).disk, ..*old(mmu) }),
{
    let ghost s0 = old(rng).seed;
    let m: u32 = r - l + 1;
    let mut i: usize = 0;
    while i < disk_size as usize
        invariant
            m == r - l + 1,
            l <= r,
            0 < m,
            0 <= i <= disk_size,
            mmu.disk@.len() == disk_size,
            rng.seed == xorshift_n(s0, i as nat),
            forall|j: int| 0 <= j < i ==> #[trigger] mmu.disk@[j] == xorshift_n(s0, (j + 1) as nat) % m + l,
            *mmu == (Mmu { disk: mmu.disk, ..*old(mmu) }),
        decreases disk_size - i,
    {
        let v = gen_rand(rng);
        proof {
            assert(v % m <= r - l);
        }
        mmu.disk.set(i, v % m + l);
        i = i + 1;
    }
}

/// `s` is sorted from `a` up to `b`, its words read as signed integers
/// (the type of the simulated memory's words).
pub open spec fn sorted_between(s: Seq<u32>, a: int, b: int) -> bool {
    forall|x: int, y: int| a <= x < y < b ==> s[x] as i32 <= s[y] as i32
}

/// One access to the task's memory: the virtual address, whether the
/// access writes, and the word read or written.
pub type Access = (int, bool, u32);

/// `b` is the machine that access `acc` leaves when made on `a`, as
/// `read_memory` and `write_memory` make it: the word is read or written,
/// the counters, the TLB, the page table and the replacement list move as
/// a translation of the address moves them, and one word access is charged.
pub open spec fn access_post(a: Mmu, b: Mmu, acc: Access) -> bool {
    let v = acc.0;
    let st = map_stats(a, v);
    &&& b.wf()
    &&& if acc.1 {
        b.vmem() == a.vmem().update(v, acc.2)
    } else {
        acc.2 == a.vmem()[v] && b.vmem() == a.vmem()
    }
    &&& b.stats == (Stats { time_cost: st.time_cost.wrapping_add(time_cache_access), ..st })
    &&& b.tlb@ == map_tlb(a, v, acc.1)
    &&& b.tcb.page_table@ == map_table(a, v, acc.1)
    &&& b.lru_list@ == map_lru(a, v)
}

/// `ms` are the machines met along the accesses `tr`, one after each.
pub open spec fn access_run(ms: Seq<Mmu>, tr: Seq<Access>) -> bool {
    &&& ms.len() == tr.len() + 1
    &&& forall|k: int| #![trigger tr[k]] 0 <= k < tr.len() ==> access_post(ms[k], ms[k + 1], tr[k])
}

/// The accesses `tr`, made in turn on `a`, leave `b`.
pub open spec fn runs_to(a: Mmu, b: Mmu, tr: Seq<Access>) -> bool {
    exists|ms: Seq<Mmu>| #![trigger access_run(ms, tr)] ms[0] == a && ms.last() == b && access_run(ms, tr)
}

/// The accesses of one step of a pass at `j` over the words `s`: the two
/// neighbours are read, and when they are out of order they are swapped,
/// read again and written back crosswise.
pub open spec fn step_trace(s: Seq<u32>, j: int) -> Seq<Access> {
    let look = seq![(j, false, s[j]), (j + 1, false, s[j + 1])];
    if s[j] as i32 > s[j + 1] as i32 {
        look + seq![(j, false, s[j]), (j + 1, false, s[j + 1]), (j, true, s[j + 1]), (j + 1, true, s[j])]
    } else {
        look
    }
}

/// The words after one step of a pass at `j`.
pub open spec fn step_mem(s: Seq<u32>, j: int) -> Seq<u32> {
    if s[j] as i32 > s[j + 1] as i32 {
        s.update(j, s[j + 1]).update(j + 1, s[j])
    } else {
        s
    }
}

/// The accesses of the steps of a pass from `j` up to, not including, `e`.
pub open spec fn pass_trace(s: Seq<u32>, j: int, e: int) -> Seq<Access>
    decreases e - j,
{
    if j >= e {
        Seq::<Access>::empty()
    } else {
        step_trace(s, j) + pass_trace(step_mem(s, j), j + 1, e)
    }
}

/// The words after the steps of a pass from `j` up to, not including, `e`.
pub open spec fn pass_mem(s: Seq<u32>, j: int, e: int) -> Seq<u32>
    decreases e - j,
{
    if j >= e {
        s
    } else {
        pass_mem(step_mem(s, j), j + 1, e)
    }
}

/// The accesses of the passes of a bubble sort of `n` words, from pass `i`
/// on; pass `i` steps from 0 up to `n - i - 1`.
pub open spec fn sort_trace(s: Seq<u32>, i: int, n: int) -> Seq<Access>
    decreases n - i,
{
    if i >= n - 1 {
        Seq::<Access>::empty()
    } else {
        pass_trace(s, 0, n - i - 1) + sort_trace(pass_mem(s, 0, n - i - 1), i + 1, n)
    }
}

proof fn lemma_run_push(ms: Seq<Mmu>, tr: Seq<Access>, b: Mmu, acc: Access)
    requires
        access_run(ms, tr),
        access_post(ms.last(), b, acc),
    ensures
        access_run(ms.push(b), tr.push(acc)),
        ms.push(b)[0] == ms[0],
        ms.push(b).last() == b,
{
    let ms2 = ms.push(b);
    let tr2 = tr.push(acc);
    assert forall|k: int| #![trigger tr2[k]] 0 <= k < tr2.len() implies access_post(ms2[k], ms2[k + 1], tr2[k]) by {
        if k < tr.len() {
            assert(tr2[k] == tr[k]);
            assert(ms2[k] == ms[k]);
            assert(ms2[k + 1] == ms[k + 1]);
            assert(access_post(ms[k], ms[k + 1], tr[k]));
        } else {
            assert(ms2[k] == ms.last());
        }
    }
}

/// What a run of accesses pins down of a machine: its virtual memory, its
/// counters, its TLB, its page table and its replacement list.
pub open spec fn same_view(a: Mmu, b: Mmu) -> bool {
    &&& a.vmem() == b.vmem()
    &&& a.stats == b.stats
    &&& a.tlb@ == b.tlb@
    &&& a.tcb.page_table@ == b.tcb.page_table@
    &&& a.lru_list@ == b.lru_list@
}

proof fn lemma_step_determined(a1: Mmu, a2: Mmu, b1: Mmu, b2: Mmu, acc: Access)
    requires
        same_view(a1, a2),
        access_post(a1, b1, acc),
        access_post(a2, b2, acc),
    ensures
        same_view(b1, b2),
{
    let p = acc.0 / (crate::mmuconf::page_size as int);
    assert(a1.tlb_has(p) == a2.tlb_has(p));
    assert(a1.pte(p) == a2.pte(p));
    assert(crate::mmuconf::victim_of(a1) == crate::mmuconf::victim_of(a2));
    let q = crate::mmuconf::victim_of(a1).page_number as int;
    assert(a1.tlb_dirty(q) == a2.tlb_dirty(q));
    assert(crate::mmuconf::victim_dirty(a1) == crate::mmuconf::victim_dirty(a2));
    assert(map_stats(a1, acc.0) == map_stats(a2, acc.0));
    assert(crate::mmuconf::fault_table(a1, p) == crate::mmuconf::fault_table(a2, p));
    assert(map_tlb(a1, acc.0, acc.1) == map_tlb(a2, acc.0, acc.1));
    assert(map_table(a1, acc.0, acc.1) == map_table(a2, acc.0, acc.1));
    assert(map_lru(a1, acc.0) == map_lru(a2, acc.0));
}

proof fn lemma_prefix_determined(ms1: Seq<Mmu>, ms2: Seq<Mmu>, tr: Seq<Access>, k: int)
    requires
        access_run(ms1, tr),
        access_run(ms2, tr),
        same_view(ms1[0], ms2[0]),
        0 <= k <= tr.len(),
    ensures
        same_view(ms1[k], ms2[k]),
    decreases k,
{
    if k > 0 {
        lemma_prefix_determined(ms1, ms2, tr, k - 1);
        assert(access_post(ms1[k - 1], ms1[k], tr[k - 1]));
        assert(access_post(ms2[k - 1], ms2[k], tr[k - 1]));
        lemma_step_determined(ms1[k - 1], ms2[k - 1], ms1[k], ms2[k], tr[k - 1]);
    }
}

/// The same accesses, made on machines that agree on their virtual memory,
/// counters, TLB, page table and replacement list, leave machines that
/// agree on them too: what a run of accesses reports follows from the
/// machine it starts on.
pub proof fn law_runs_determined(a1: Mmu, a2: Mmu, b1: Mmu, b2: Mmu, tr: Seq<Access>)
    requires
        same_view(a1, a2),
        runs_to(a1, b1, tr),
        runs_to(a2, b2, tr),
    ensures
        same_view(b1, b2),
{
    let ms1 = choose|ms: Seq<Mmu>| #![trigger access_run(ms, tr)] ms[0] == a1 && ms.last() == b1 && access_run(ms, tr);
    let ms2 = choose|ms: Seq<Mmu>| #![trigger access_run(ms, tr)] ms[0] == a2 && ms.last() == b2 && access_run(ms, tr);
    lemma_prefix_determined(ms1, ms2, tr, tr.len() as int);
}

/// One access is a run of one.
proof fn lemma_runs_one(a: Mmu, b: Mmu, acc: Access)
    requires
        access_post(a, b, acc),
    ensures
        runs_to(a, b, seq![acc]),
{
    let ms = seq![a, b];
    let tr = seq![acc];
    assert(access_run(ms, tr)) by {
        assert forall|k: int| #![trigger tr[k]] 0 <= k < tr.len() implies access_post(ms[k], ms[k + 1], tr[k]) by {
            assert(k == 0);
        }
    }
    assert(ms[0] == a && ms.last() == b);
}

/// Two runs, the second starting where the first ends, make one.
proof fn lemma_runs_concat(a: Mmu, b: Mmu, c: Mmu, t1: Seq<Access>, t2: Seq<Access>)
    requires
        runs_to(a, b, t1),
        runs_to(b, c, t2),
    ensures
        runs_to(a, c, t1 + t2),
{
    let ms1 = choose|ms: Seq<Mmu>| #![trigger access_run(ms, t1)] ms[0] == a && ms.last() == b && access_run(ms, t1);
    let ms2 = choose|ms: Seq<Mmu>| #![trigger access_run(ms, t2)] ms[0] == b && ms.last() == c && access_run(ms, t2);
    let ms = ms1 + ms2.subrange(1, ms2.len() as int);
    let tr = t1 + t2;
    let n1 = t1.len() as int;
    assert(ms.len() == tr.len() + 1);
    assert forall|k: int| #![trigger tr[k]] 0 <= k < tr.len() implies access_post(ms[k], ms[k + 1], tr[k]) by {
        if k < n1 {
            assert(tr[k] == t1[k]);
            assert(ms[k] == ms1[k]);
            if k + 1 < ms1.len() {
                assert(ms[k + 1] == ms1[k + 1]);
            }
            assert(access_post(ms1[k], ms1[k + 1], t1[k]));
        } else {
            let k2 = k - n1;
            assert(tr[k] == t2[k2]);
            if k == n1 {
                assert(ms[k] == ms1.last());
                assert(ms2[0] == b);
            } else {
                assert(ms[k] == ms2[k2]);
            }
            assert(ms[k + 1] == ms2[k2 + 1]);
            assert(access_post(ms2[k2], ms2[k2 + 1], t2[k2]));
        }
    }
    assert(access_run(ms, tr));
    assert(ms[0] == a);
    assert(ms.last() == c);
}

/// Swaps the words at virtual addresses `i` and `j`: reads `i`, reads `j`,
/// writes the second word at `i` and the first at `j`.
fn swap(mmu: &mut Mmu, i: i32, j: i32)
    requires
        old(mmu).wf(),
        0 <= i < virtual_space,
        0 <= j < virtual_space,
    ensures
        final(mmu).wf(),
        final(mmu).vmem() == old(mmu).vmem().update(i as int, old(mmu).vmem()[j as int]).update(
            j as int,
            old(mmu).vmem()[i as int],
        ),
        runs_to(
            *old(mmu),
            *final(mmu),
            seq![
                (i as int, false, old(mmu).vmem()[i as int]),
                (j as int, false, old(mmu).vmem()[j as int]),
                (i as int, true, old(mmu).vmem()[j as int]),
                (j as int, true, old(mmu).vmem()[i as int]),
            ],
        ),
{
    let ghost m0 = *mmu;
    let ghost v = m0.vmem();
    let tmp = read_memory(mmu, i);
    let ghost m1 = *mmu;
    let d = read_memory(mmu, j);
    let ghost m2 = *mmu;
    write_memory(mmu, i, d);
    let ghost m3 = *mmu;
    write_memory(mmu, j, tmp);
    proof {
        let m4 = *mmu;
        let a0: Access = (i as int, false, v[i as int]);
        let a1: Access = (j as int, false, v[j as int]);
        let a2: Access = (i as int, true, v[j as int]);
        let a3: Access = (j as int, true, v[i as int]);
        let tr = seq![a0, a1, a2, a3];
        let ms = seq![m0, m1, m2, m3, m4];
        assert(access_post(m0, m1, a0));
        assert(access_post(m1, m2, a1));
        assert(access_post(m2, m3, a2));
        assert(access_post(m3, m4, a3));
        assert(access_run(ms, tr)) by {
            assert forall|k: int| #![trigger tr[k]] 0 <= k < tr.len() implies access_post(ms[k], ms[k + 1], tr[k]) by {
                if k == 0 {
                } else if k == 1 {
                } else if k == 2 {
                } else {
                }
            }
        }
        assert(ms[0] == m0 && ms.last() == m4);
    }
}

proof fn lemma_swap_multiset(s: Seq<u32>, i: int, j: int)
    requires
        0 <= i < s.len(),
        0 <= j < s.len(),
    ensures
        s.update(i, s[j]).update(j, s[i]).to_multiset() =~= s.to_multiset(),
{
    let s1 = s.update(i, s[j]);
    vstd::seq_lib::to_multiset_update(s, i, s[j]);
    vstd::seq_lib::to_multiset_update(s1, j, s[i]);
    assert(s1[j] == s[j]);
    vstd::seq_lib::to_multiset_contains(s, s[i]);
    assert(s.contains(s[i]));
    let m = s.to_multiset();
    assert(m.count(s[i]) > 0);
    assert forall|v: u32| #[trigger] s1.update(j, s[i]).to_multiset().count(v) == m.count(v) by {
        if v == s[i] && v == s[j] {
        } else if v == s[i] {
        } else if v == s[j] {
        }
    }
}

/// Sorts the task's virtual memory in increasing order of its words read
/// as signed integers, by bubble sort, through the MMU.  The machine ends
/// as the accesses of the sort leave it, counters and caches included:
/// pass `i` steps `j` from 0 up to `n - i - 1`, reading the words at `j`
/// and `j + 1` and swapping them when they are out of order.
#[verifier::rlimit(40)]
pub fn bubble_sort(mmu: &mut Mmu)
    requires
        old(mmu).wf(),
    ensures
        final(mmu).wf(),
        sorted_between(final(mmu).vmem(), 0, virtual_space as int),
        final(mmu).vmem().to_multiset() == old(mmu).vmem().to_multiset(),
        runs_to(*old(mmu), *final(mmu), sort_trace(old(mmu).vmem(), 0, virtual_space as int)),
{
    let n: i32 = virtual_space;
    let ghost m_start = *old(mmu);
    let ghost ms = old(mmu).vmem().to_multiset();
    let ghost full = sort_trace(old(mmu).vmem(), 0, n as int);
    let ghost mut done = Seq::<Access>::empty();
    proof {
        let ms0 = seq![m_start];
        assert(access_run(ms0, done));
        assert(ms0.last() == m_start);
        assert(done + full =~= full);
    }
    let mut i: i32 = 0;
    while i < n - 1
        invariant
            n == virtual_space,
            0 <= i <= n - 1,
            mmu.wf(),
            mmu.vmem().len() == n,
            mmu.vmem().to_multiset() == ms,
            sorted_between(mmu.vmem(), n - i, n as int),
            forall|x: int, y: int| 0 <= x < n - i <= y < n ==> mmu.vmem()[x] as i32 <= mmu.vmem()[y] as i32,
            runs_to(m_start, *mmu, done),
            done + sort_trace(mmu.vmem(), i as int, n as int) == full,
        decreases n - 1 - i,
    {
        let ghost e: int = n - i - 1;
        proof {
            let v = mmu.vmem();
            assert(sort_trace(v, i as int, n as int) == pass_trace(v, 0, e) + sort_trace(
                pass_mem(v, 0, e),
                i + 1,
                n as int,
            ));
            assert(done + sort_trace(v, i as int, n as int) =~= done + pass_trace(v, 0, e) + sort_trace(
                pass_mem(v, 0, e),
                i + 1,
                n as int,
            ));
        }
        let mut j: i32 = 0;
        while j < n - i - 1
            invariant
                n == virtual_space,
                0 <= i < n - 1,
                e == n - i - 1,
                0 <= j <= n - i - 1,
                mmu.wf(),
                mmu.vmem().len() == n,
                mmu.vmem().to_multiset() == ms,
                sorted_between(mmu.vmem(), n - i, n as int),
                forall|x: int, y: int| 0 <= x < n - i <= y < n ==> mmu.vmem()[x] as i32 <= mmu.vmem()[y] as i32,
                forall|x: int| 0 <= x <= j ==> mmu.vmem()[x] as i32 <= mmu.vmem()[j as int] as i32,
                runs_to(m_start, *mmu, done),
                done + pass_trace(mmu.vmem(), j as int, e) + sort_trace(pass_mem(mmu.vmem(), j as int, e), i + 1, n as int)
                    == full,
            decreases n - i - 1 - j,
        {
            let ghost v = mmu.vmem();
            let ghost m0 = *mmu;
            let ghost d_in = done;
            let a = read_memory(mmu, j);
            let ghost m1 = *mmu;
            let b = read_memory(mmu, j + 1);
            let ghost m2 = *mmu;
            proof {
                lemma_runs_one(m0, m1, (j as int, false, v[j as int]));
                lemma_runs_one(m1, m2, (j + 1, false, v[j + 1]));
                lemma_runs_concat(m_start, m0, m1, done, seq![(j as int, false, v[j as int])]);
                lemma_runs_concat(
                    m_start,
                    m1,
                    m2,
                    done + seq![(j as int, false, v[j as int])],
                    seq![(j + 1, false, v[j + 1])],
                );
                assert(done + seq![(j as int, false, v[j as int])] + seq![(j + 1, false, v[j + 1])] =~= done + seq![
                    (j as int, false, v[j as int]),
                    (j + 1, false, v[j + 1]),
                ]);
                done = done + seq![(j as int, false, v[j as int]), (j + 1, false, v[j + 1])];
            }
            if (a as i32) > (b as i32) {
                swap(mmu, j, j + 1);
                proof {
                    lemma_swap_multiset(v, j as int, j + 1);
                    let sw = seq![
                        (j as int, false, v[j as int]),
                        (j + 1, false, v[j + 1]),
                        (j as int, true, v[j + 1]),
                        (j + 1, true, v[j as int]),
                    ];
                    lemma_runs_concat(m_start, m2, *mmu, done, sw);
                    done = done + sw;
                }
            }
            proof {
                let v2 = mmu.vmem();
                let look = seq![(j as int, false, v[j as int]), (j + 1, false, v[j + 1])];
                let st = step_trace(v, j as int);
                let p2 = pass_trace(v2, j + 1, e);
                let s2 = sort_trace(pass_mem(v2, j + 1, e), i + 1, n as int);
                assert(v2 == step_mem(v, j as int));
                if (a as i32) > (b as i32) {
                    assert(done =~= d_in + st);
                } else {
                    assert(done =~= d_in + st);
                }
                assert(pass_trace(v, j as int, e) == st + p2);
                assert(pass_mem(v, j as int, e) == pass_mem(v2, j + 1, e));
                assert(done + p2 + s2 =~= d_in + (st + p2) + s2);
            }
            j = j + 1;
        }
        i = i + 1;
    }
    proof {
        // after the last pass only position 0 is left below the sorted tail
        assert(sorted_between(mmu.vmem(), 0, n as int)) by {
            assert forall|x: int, y: int| 0 <= x < y < n implies mmu.vmem()[x] as i32 <= mmu.vmem()[y] as i32 by {
                if x == 0 {
                    assert(0 <= x < n - i <= y < n);
                }
            }
        }
        assert(sort_trace(mmu.vmem(), i as int, n as int) == Seq::<Access>::empty());
        assert(done =~= done + sort_trace(mmu.vmem(), i as int, n as int));
    }
}

} // verus!
