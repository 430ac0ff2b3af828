use cycle_finder::ids::{append_range, find, insert_ascending};

#[test]
fn find_gives_the_first_place() {
    let ids = vec![4, 7, 4, 9];
    assert_eq!(find(&ids, 4), Some(0));
    assert_eq!(find(&ids, 7), Some(1));
    assert_eq!(find(&ids, 9), Some(3));
}

#[test]
fn find_gives_nothing_for_a_missing_id() {
    assert_eq!(find(&vec![4, 7, 4, 9], 5), None);
    assert_eq!(find(&Vec::new(), 0), None);
}

#[test]
fn append_range_copies_the_range() {
    let mut dst = vec![1, 2];
    append_range(&mut dst, &vec![10, 20, 30, 40], 1, 3);
    assert_eq!(dst, vec![1, 2, 20, 30]);
}

#[test]
fn append_range_of_nothing_changes_nothing() {
    let mut dst = vec![1, 2];
    append_range(&mut dst, &vec![10, 20, 30, 40], 2, 2);
    assert_eq!(dst, vec![1, 2]);
    append_range(&mut dst, &vec![10, 20, 30, 40], 0, 4);
    assert_eq!(dst, vec![1, 2, 10, 20, 30, 40]);
}

#[test]
fn insert_ascending_keeps_the_order() {
    let mut ids: Vec<usize> = Vec::new();
    for id in [5, 1, 9, 3, 7] {
        insert_ascending(&mut ids, id);
    }
    assert_eq!(ids, vec![1, 3, 5, 7, 9]);
    insert_ascending(&mut ids, 0);
    insert_ascending(&mut ids, usize::MAX);
    assert_eq!(ids, vec![0, 1, 3, 5, 7, 9, usize::MAX]);
}

#[test]
fn insert_ascending_takes_an_id_once() {
    let mut ids = vec![1, 3, 5];
    insert_ascending(&mut ids, 3);
    insert_ascending(&mut ids, 1);
    insert_ascending(&mut ids, 5);
    assert_eq!(ids, vec![1, 3, 5]);
}
