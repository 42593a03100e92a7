use freertos::spigot::PiSpigot;

#[test]
fn spigot_first_groups_are_digits_of_pi() {
    let mut s = PiSpigot::new();
    let expected: [(u64, u32); 6] = [(0, 3141), (4, 5926), (8, 5358), (12, 9793), (16, 2384), (20, 6264)];
    for (at, group) in expected {
        assert_eq!(s.next_digits(), Some((at, group)));
    }
}

#[test]
fn spigot_runs_out_after_all_terms() {
    let mut s = PiSpigot::new();
    let mut groups: u64 = 0;
    let mut last: Option<(u64, u32)> = None;
    while let Some(g) = s.next_digits() {
        groups += 1;
        last = Some(g);
        if groups > 2500 {
            break;
        }
    }
    assert_eq!(groups, 2500);
    assert_eq!(last.map(|g| g.0), Some(9996));
    assert_eq!(s.next_digits(), None);
    assert_eq!(s.next_digits(), None);
}
