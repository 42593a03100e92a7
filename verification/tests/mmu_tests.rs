use freertos::mmuconf::{
    lru_list_init, page_table_init, read_memory, stat_init, write_memory, Mmu, disk_size, page_size, virtual_space,
};
use freertos::mmutest::{gen_rand, random_initialize, Rng};

fn ready_mmu() -> Mmu {
    let mut mmu = Mmu::new();
    stat_init(&mut mmu);
    page_table_init(&mut mmu);
    lru_list_init(&mut mmu);
    mmu
}

#[test]
fn read_after_write() {
    let mut mmu = ready_mmu();
    write_memory(&mut mmu, 5, 77);
    assert_eq!(read_memory(&mut mmu, 5), 77);
    assert_eq!(read_memory(&mut mmu, 6), 0);
}

#[test]
fn writes_survive_page_replacement() {
    let mut mmu = ready_mmu();
    // touch more pages than there are frames
    for p in 0..(virtual_space / page_size) {
        write_memory(&mut mmu, p * page_size + 1, (p + 100) as u32);
    }
    for p in 0..(virtual_space / page_size) {
        assert_eq!(read_memory(&mut mmu, p * page_size + 1), (p + 100) as u32);
    }
    // sixteen pages cycled through eight frames: every page comes back from disk
    assert!(mmu.stats.memory_miss > 0);
}

#[test]
fn first_access_hits_after_init() {
    let mut mmu = ready_mmu();
    read_memory(&mut mmu, 0);
    assert_eq!(mmu.stats.tlb_miss, 1);
    assert_eq!(mmu.stats.memory_hit, 1);
    read_memory(&mut mmu, 1);
    assert_eq!(mmu.stats.tlb_hit, 1);
}

#[test]
fn xorshift_sequence() {
    let mut rng = Rng::new();
    let first = gen_rand(&mut rng);
    let s: u32 = 1919810;
    let a = s ^ (s << 13);
    let b = a ^ (a >> 17);
    let c = b ^ (b << 5);
    assert_eq!(first, c);
    assert_eq!(rng.seed, c);
}

#[test]
fn disk_filled_within_range() {
    let mut mmu = Mmu::new();
    let mut rng = Rng::new();
    random_initialize(&mut mmu, &mut rng, 0, 1145141919);
    assert_eq!(mmu.disk.len(), disk_size as usize);
    assert!(mmu.disk.iter().all(|&w| w <= 1145141919));
    let mut check = Rng::new();
    let w0 = gen_rand(&mut check);
    assert_eq!(mmu.disk[0], w0 % 1145141920);
    random_initialize(&mut mmu, &mut rng, 5, 5);
    assert!(mmu.disk.iter().all(|&w| w == 5));
}

#[test]
fn read_gives_last_write_after_other_traffic() {
    let mut mmu = ready_mmu();
    write_memory(&mut mmu, 3, 41);
    write_memory(&mut mmu, 3, 42);
    // other words of every page, read and written, push page 0 out and back
    for p in 0..(virtual_space / page_size) {
        write_memory(&mut mmu, p * page_size + 7, 9);
        read_memory(&mut mmu, p * page_size + 8);
    }
    assert_eq!(read_memory(&mut mmu, 3), 42);
}

#[test]
fn page_table_init_charges_eight_disk_reads() {
    let mut mmu = Mmu::new();
    stat_init(&mut mmu);
    page_table_init(&mut mmu);
    assert_eq!(mmu.stats.time_cost, 8 * 1_000_000);
    assert_eq!(mmu.stats.tlb_hit + mmu.stats.tlb_miss + mmu.stats.memory_hit + mmu.stats.memory_miss, 0);
}

#[test]
fn same_accesses_give_same_counters() {
    let mut a = ready_mmu();
    let mut b = ready_mmu();
    let addrs = [0, 1, page_size * 9 + 3, 2, page_size * 12, page_size * 3 + 7, 5];
    for (k, &v) in addrs.iter().enumerate() {
        if k % 2 == 0 {
            write_memory(&mut a, v, k as u32);
            write_memory(&mut b, v, k as u32);
        } else {
            assert_eq!(read_memory(&mut a, v), read_memory(&mut b, v));
        }
    }
    assert_eq!(a.stats.tlb_hit, b.stats.tlb_hit);
    assert_eq!(a.stats.tlb_miss, b.stats.tlb_miss);
    assert_eq!(a.stats.memory_hit, b.stats.memory_hit);
    assert_eq!(a.stats.memory_miss, b.stats.memory_miss);
    assert_eq!(a.stats.time_cost, b.stats.time_cost);
    // two pages beyond the eight resident ones fault in
    assert_eq!(a.stats.memory_miss, 2);
    assert_eq!(a.stats.tlb_hit + a.stats.tlb_miss, addrs.len() as u32);
}
