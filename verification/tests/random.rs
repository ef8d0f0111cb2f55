use minesweeper::random::random_range;

#[test]
fn random_range_test() {
    for _ in 0..1000 {
        let random_number = random_range(0, 10);
        assert!(random_number <= 10);
    }
}

#[test]
fn random_range_stays_in_bounds() {
    for lo in 0..5usize {
        for _ in 0..100 {
            let n = random_range(lo, lo + 3);
            assert!(lo <= n && n < lo + 3);
        }
    }
}
