use cutflow::production::cut::{Cut, CutError, CutPath, CutSequence};

fn labels(s: &CutSequence, n: usize) -> Vec<String> {
    (0..n).map(|i| s.path(i).unwrap().to_string()).collect()
}

#[test]
fn empty_sequence_has_no_cut() {
    let s = CutSequence::new();
    assert_eq!(s.key(0), Err(CutError::NotFound));
    assert!(s.path(0).is_err());
    let mut s = CutSequence::default();
    assert_eq!(s.insert_cut(1), Err(CutError::NotFound));
    assert_eq!(s.split_cut_keep_after(0), Err(CutError::NotFound));
    assert_eq!(s.split_cut_keep_before(0), Err(CutError::NotFound));
}

#[test]
fn insert_cut_puts_the_new_cut_at_the_index() {
    let mut s = CutSequence::new();
    s.insert_cut(0).unwrap();
    let a = s.key(0).unwrap();
    s.insert_cut(1).unwrap();
    let b = s.key(1).unwrap();
    s.insert_cut(0).unwrap();
    let c = s.key(0).unwrap();
    assert_eq!(s.index(c), Ok(0));
    assert_eq!(s.index(a), Ok(1));
    assert_eq!(s.index(b), Ok(2));
    assert_eq!(s.key(3), Err(CutError::NotFound));
    assert_eq!(s.insert_cut(4), Err(CutError::NotFound));
    for i in 0..3 {
        assert_eq!(s.path(i).unwrap().path(), &[i][..]);
        assert!(s.cut(s.key(i).unwrap()).unwrap().is_existing());
    }
    assert_eq!(labels(&s, 3), vec!["c001", "c002", "c003"]);
}

#[test]
fn split_keep_after_puts_the_new_cut_first() {
    let mut s = CutSequence::new();
    s.insert_cut(0).unwrap();
    s.insert_cut(1).unwrap();
    let a = s.key(0).unwrap();
    let b = s.key(1).unwrap();
    assert_eq!(s.split_cut_keep_after(0), Ok(()));
    let n = s.key(0).unwrap();
    assert_ne!(n, a);
    assert_eq!(s.key(1), Ok(a));
    assert_eq!(s.key(2), Ok(b));
    assert_eq!(s.path(0).unwrap().path(), &[0, 0][..]);
    assert_eq!(s.path(1).unwrap().path(), &[0, 1][..]);
    assert_eq!(s.path(2).unwrap().path(), &[1][..]);
    assert_eq!(labels(&s, 3), vec!["c001A", "c001B", "c002"]);
}

#[test]
fn split_keep_before_puts_the_new_cut_after() {
    let mut s = CutSequence::new();
    s.insert_cut(0).unwrap();
    s.insert_cut(1).unwrap();
    let a = s.key(0).unwrap();
    let b = s.key(1).unwrap();
    assert_eq!(s.split_cut_keep_before(1), Ok(()));
    let n = s.key(2).unwrap();
    assert_eq!(s.key(0), Ok(a));
    assert_eq!(s.key(1), Ok(b));
    assert_ne!(n, b);
    assert_eq!(labels(&s, 3), vec!["c001", "c002A", "c002B"]);
    assert_eq!(s.split_cut_keep_after(3), Err(CutError::NotFound));
}

#[test]
fn nested_splits_and_inserts_follow_their_level() {
    let mut s = CutSequence::new();
    s.insert_cut(0).unwrap();
    s.insert_cut(1).unwrap();
    s.insert_cut(2).unwrap();
    let a = s.key(1).unwrap();
    s.split_cut_keep_after(1).unwrap();
    s.split_cut_keep_before(2).unwrap();
    assert_eq!(s.key(2), Ok(a));
    assert_eq!(
        labels(&s, 5),
        vec!["c001", "c002A", "c002B-1", "c002B-2", "c003"]
    );
    s.insert_cut(2).unwrap();
    let x = s.key(2).unwrap();
    assert_eq!(s.key(3), Ok(a));
    assert_eq!(s.index(x), Ok(2));
    assert_eq!(
        labels(&s, 6),
        vec!["c001", "c002A", "c002B-1", "c002B-2", "c002B-3", "c003"]
    );
    s.insert_cut(6).unwrap();
    assert_eq!(s.path(6).unwrap().to_string(), "c004");
}

#[test]
fn remove_marks_and_normalize_drops() {
    let mut s = CutSequence::new();
    s.insert_cut(0).unwrap();
    s.insert_cut(1).unwrap();
    s.insert_cut(2).unwrap();
    s.split_cut_keep_after(1).unwrap();
    let keys: Vec<_> = (0..4).map(|i| s.key(i).unwrap()).collect();
    assert_eq!(s.remove(keys[1]), Ok(()));
    assert_eq!(s.remove(keys[1]), Err(CutError::NotFound));
    assert!(!s.cut(keys[1]).unwrap().is_existing());
    assert_eq!(s.index(keys[1]), Ok(1));
    s.normalize();
    assert!(s.cut(keys[1]).is_err());
    assert_eq!(s.index(keys[1]), Err(CutError::NotFound));
    assert_eq!(s.remove(keys[1]), Err(CutError::NotFound));
    for (i, k) in [keys[0], keys[2], keys[3]].iter().enumerate() {
        assert_eq!(s.key(i), Ok(*k));
        assert_eq!(s.path(i).unwrap().path(), &[i][..]);
    }
    assert_eq!(s.key(3), Err(CutError::NotFound));
    s.normalize();
    assert_eq!(s.key(1), Ok(keys[2]));
    assert_eq!(labels(&s, 3), vec!["c001", "c002", "c003"]);
}

#[test]
fn a_level_of_letters_holds_twenty_seven_cuts() {
    let mut s = CutSequence::new();
    s.insert_cut(0).unwrap();
    s.split_cut_keep_before(0).unwrap();
    for _ in 0..25 {
        s.insert_cut(0).unwrap();
    }
    assert_eq!(s.insert_cut(0), Err(CutError::LimitExceeded));
    assert_eq!(s.insert_cut(26), Err(CutError::LimitExceeded));
    assert_eq!(s.path(26).unwrap().path(), &[0, 26][..]);
    assert_eq!(s.insert_cut(27), Ok(()));
    assert_eq!(s.path(27).unwrap().path(), &[1][..]);
}

#[test]
fn the_outer_level_holds_a_thousand_cuts() {
    let mut s = CutSequence::new();
    for i in 0..1000 {
        assert_eq!(s.insert_cut(i), Ok(()));
    }
    assert_eq!(s.insert_cut(1000), Err(CutError::LimitExceeded));
    assert_eq!(s.insert_cut(0), Err(CutError::LimitExceeded));
    assert_eq!(s.path(999).unwrap().to_string(), "c1000");
    assert_eq!(s.split_cut_keep_after(999), Ok(()));
    assert_eq!(s.path(1000).unwrap().to_string(), "c1000B");
}

#[test]
fn cut_path_steps_and_labels() {
    let mut p = CutPath::default();
    assert_eq!(p.depth(), 0);
    assert_eq!(p.to_string(), "");
    assert_eq!(p.increment(), Err(CutError::LimitExceeded));
    p.ascend();
    for _ in 0..4 {
        p.increment().unwrap();
    }
    p.ascend();
    p.increment().unwrap();
    p.ascend();
    p.increment().unwrap();
    p.increment().unwrap();
    assert_eq!(p.path(), &[4, 1, 2][..]);
    assert_eq!(p.to_string(), "c005B-3");
    assert_eq!(p.iter().copied().collect::<Vec<_>>(), vec![4, 1, 2]);
    assert_eq!(p.depth(), 3);
}

#[test]
fn cut_path_increment_stops_at_each_cap() {
    let mut p = CutPath::default();
    p.ascend();
    for _ in 0..999 {
        p.increment().unwrap();
    }
    assert_eq!(p.increment(), Err(CutError::LimitExceeded));
    assert_eq!(p.path(), &[999][..]);
    assert_eq!(p.to_string(), "c1000");
    p.ascend();
    for _ in 0..26 {
        p.increment().unwrap();
    }
    assert_eq!(p.increment(), Err(CutError::LimitExceeded));
    assert_eq!(p.to_string(), "c1000[");
    p.ascend();
    for _ in 0..9 {
        p.increment().unwrap();
    }
    assert_eq!(p.increment(), Err(CutError::LimitExceeded));
    assert_eq!(p.to_string(), "c1000[-10");
    p.ascend();
    for _ in 0..9 {
        p.increment().unwrap();
    }
    assert_eq!(p.increment(), Err(CutError::LimitExceeded));
    assert_eq!(p.to_string(), "c1000[-10-10");
}

#[test]
fn cuts_exist_until_removed() {
    let c = Cut::new();
    assert!(c.is_existing());
    assert!(Cut::default().is_existing());
    assert!(!Cut::Removed.is_existing());
    assert_eq!(CutError::NotFound.message(), "cut not found");
    assert_eq!(CutError::LimitExceeded.message(), "cut limit exceeded");
}

#[test]
fn cut_path_depth_counts_ascends() {
    let mut p = CutPath::default();
    assert!(p.increment().is_err());
    assert_eq!(p.depth(), 0);
    p.ascend();
    p.increment().unwrap();
    p.ascend();
    assert_eq!(p.depth(), 2);
    for _ in 0..30 {
        let _ = p.increment();
    }
    assert_eq!(p.depth(), 2);
    p.ascend();
    assert_eq!(p.depth(), 3);
    assert_eq!(p.path().len(), 3);
}

#[test]
fn every_cut_in_the_order_is_found() {
    let mut s = CutSequence::new();
    s.insert_cut(0).unwrap();
    s.insert_cut(1).unwrap();
    s.split_cut_keep_after(0).unwrap();
    let k = s.key(1).unwrap();
    s.remove(k).unwrap();
    for i in 0..3 {
        assert!(s.cut(s.key(i).unwrap()).is_ok());
    }
}
