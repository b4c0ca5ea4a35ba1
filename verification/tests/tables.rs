use heavykeeper::memory::total_bytes;
use heavykeeper::probing::{table_size_for, wraps_around};

#[test]
fn table_sizes() {
    assert_eq!(table_size_for(0), 8);
    assert_eq!(table_size_for(3), 8);
    assert_eq!(table_size_for(4), 8);
    assert_eq!(table_size_for(5), 16);
    assert_eq!(table_size_for(8), 16);
    assert_eq!(table_size_for(9), 32);
    assert_eq!(table_size_for(1000), 2048);
    assert_eq!(table_size_for(1024), 2048);
    assert_eq!(table_size_for(1025), 4096);
    let most = (usize::MAX >> 2) + 1;
    assert_eq!(table_size_for(most), usize::MAX / 2 + 1);
    assert_eq!(table_size_for(most / 2 + 1), usize::MAX / 2 + 1);
    assert_eq!(table_size_for(most / 2), most);
}

#[test]
fn shifts_back_over_a_contiguous_run() {
    assert!(wraps_around(2, 2, 5, 8));
    assert!(wraps_around(1, 2, 5, 8));
    assert!(wraps_around(6, 2, 5, 8));
    assert!(!wraps_around(3, 2, 5, 8));
    assert!(!wraps_around(5, 2, 5, 8));
}

#[test]
fn shifts_back_over_the_end_of_the_table() {
    assert!(wraps_around(6, 6, 1, 8));
    assert!(wraps_around(2, 6, 1, 8));
    assert!(!wraps_around(7, 6, 1, 8));
    assert!(!wraps_around(0, 6, 1, 8));
    assert!(!wraps_around(1, 6, 1, 8));
}

#[test]
fn shift_follows_the_probe_order() {
    let m: usize = 8;
    let steps = |from: usize, to: usize| (to + m - from) % m;
    for natural in 0..m {
        for vacancy in 0..m {
            for current in 0..m {
                if vacancy != current {
                    assert_eq!(
                        wraps_around(natural, vacancy, current, m),
                        steps(natural, vacancy) < steps(natural, current)
                    );
                }
            }
        }
    }
}

#[test]
fn byte_totals() {
    assert_eq!(total_bytes(10, 32, 11, 32, 4, &vec![1, 2, 3]), Some(498));
    assert_eq!(total_bytes(0, 0, 0, 0, 0, &vec![]), Some(0));
    assert_eq!(total_bytes(usize::MAX, 1, 0, 0, 1, &vec![]), Some(usize::MAX));
    assert_eq!(total_bytes(usize::MAX, 2, 0, 0, 1, &vec![]), None);
    assert_eq!(total_bytes(usize::MAX, 1, 1, 0, 1, &vec![]), None);
    assert_eq!(total_bytes(usize::MAX, 1, 0, 0, 1, &vec![1]), None);
}
