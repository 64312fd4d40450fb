use lib::lmd::{split_lmd, Lmd};

fn values(v: &[Lmd]) -> Vec<(u32, u32, u32)> {
    v.iter().map(|x| (x.0.get(), x.1.get(), x.2.get())).collect()
}

#[test]
fn split_long_run() {
    let mut v = Vec::new();
    split_lmd(&mut v, 700, 5000, 7);
    assert_eq!(values(&v), vec![(315, 0, 1), (315, 0, 1), (70, 2359, 7), (0, 2359, 7), (0, 282, 7)]);
}

#[test]
fn split_short_run() {
    let mut v = Vec::new();
    split_lmd(&mut v, 3, 4, 9);
    assert_eq!(values(&v), vec![(3, 4, 9)]);
}
