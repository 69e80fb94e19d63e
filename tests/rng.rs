use ripoff_robots::rng::Rng;

#[test]
fn splitmix_first_draw() {
    let mut r = Rng::new(0);
    assert_eq!(r.next_u64(), 0xe220_a839_7b1d_cdaf);
    assert_eq!(r.next_u64(), 0x6e78_9e6a_a1b9_65f4);
}

#[test]
fn uniform_stays_in_range() {
    let mut r = Rng::new(99);
    for _ in 0..1000 {
        let v = r.uniform(4, 7);
        assert!((4..7).contains(&v));
    }
    assert_eq!(r.uniform(3, 4), 3);
}

#[test]
fn uniform_is_offset_remainder() {
    let mut a = Rng::new(11);
    let mut b = Rng::new(11);
    let bits = a.next_u64();
    assert_eq!(b.uniform(10, 20), 10 + (bits % 10) as usize);
}
