use puppies::utils::{read_batches, split_into_batches, to_millis, Elapsed};

#[test]
fn to_millis_drops_sub_millisecond_part() {
    assert_eq!(to_millis(Elapsed { secs: 2, subsec_nanos: 345_678_901 }), 2345);
    assert_eq!(to_millis(Elapsed { secs: 0, subsec_nanos: 999_999 }), 0);
    assert_eq!(to_millis(Elapsed { secs: 7, subsec_nanos: 0 }), 7000);
}

fn records(n: u32) -> Vec<(u32, u32)> {
    (0..n).map(|i| (i, i + 100)).collect()
}

#[test]
fn split_drops_the_record_that_closes_a_full_batch() {
    let batches = split_into_batches(&records(8), 2);
    assert_eq!(
        batches,
        vec![vec![(0, 100), (1, 101)], vec![(3, 103), (4, 104)], vec![(6, 106), (7, 107)]]
    );
}

#[test]
fn split_keeps_a_last_partial_batch() {
    let batches = split_into_batches(&records(7), 3);
    assert_eq!(batches, vec![vec![(0, 100), (1, 101), (2, 102)], vec![(4, 104), (5, 105), (6, 106)]]);
    let batches = split_into_batches(&records(5), 3);
    assert_eq!(batches, vec![vec![(0, 100), (1, 101), (2, 102)], vec![(4, 104)]]);
    let batches = split_into_batches(&records(4), 3);
    assert_eq!(batches, vec![vec![(0, 100), (1, 101), (2, 102)]]);
}

#[test]
fn split_with_zero_batch_size_gives_one_empty_batch_per_record() {
    let batches = split_into_batches(&records(3), 0);
    assert_eq!(batches, vec![Vec::<(u32, u32)>::new(), Vec::new(), Vec::new()]);
}

#[test]
fn split_of_nothing_is_nothing() {
    assert!(split_into_batches(&Vec::new(), 4).is_empty());
}

#[test]
fn read_batches_decodes_csv_records() {
    let text = b"1,2\n3,4\n5,6\n7,8\n";
    let batches = read_batches(text, 2).unwrap();
    assert_eq!(batches, vec![vec![(1, 2), (3, 4)], vec![(7, 8)]]);
}

#[test]
fn read_batches_refuses_a_bad_record() {
    assert!(read_batches(b"1,2\nx,4\n", 10).is_none());
}
