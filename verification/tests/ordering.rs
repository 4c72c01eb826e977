use lindirstat::order::{squarify_order, sort_by_size_desc, total_size};

#[test]
fn drops_empty_and_sorts_descending() {
    let items = vec![(0, 5), (1, 0), (2, 9), (3, 5), (4, 1)];
    assert_eq!(squarify_order(items), vec![(2, 9), (0, 5), (3, 5), (4, 1)]);
}

#[test]
fn sort_is_stable() {
    let items = vec![(7, 3), (1, 3), (4, 3), (2, 8)];
    assert_eq!(sort_by_size_desc(items), vec![(2, 8), (7, 3), (1, 3), (4, 3)]);
}

#[test]
fn all_empty_gives_nothing() {
    assert_eq!(squarify_order(vec![(0, 0), (1, 0)]), vec![]);
    assert_eq!(squarify_order(vec![]), vec![]);
}

#[test]
fn total_in_u128() {
    assert_eq!(total_size(&vec![(0, u64::MAX), (1, u64::MAX), (2, 2)]), 2 * (u64::MAX as u128) + 2);
    assert_eq!(total_size(&vec![]), 0);
}

#[test]
fn matches_std_stable_sort() {
    let mut x: u64 = 12345;
    for n in 0..60usize {
        let mut items = Vec::new();
        for i in 0..n {
            x = x.wrapping_mul(6364136223846793005).wrapping_add(1442695040888963407);
            items.push((i, (x >> 60) % 5));
        }
        let mut expected: Vec<(usize, u64)> = items.iter().copied().filter(|(_, s)| *s > 0).collect();
        expected.sort_by(|a, b| b.1.cmp(&a.1));
        assert_eq!(squarify_order(items), expected);
    }
}
