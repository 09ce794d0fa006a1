use cutflow::util::iter::LayeredVec;

fn sample() -> LayeredVec<u32> {
    LayeredVec::Sequence(vec![
        LayeredVec::Element(1),
        LayeredVec::Sequence(vec![
            LayeredVec::Element(2),
            LayeredVec::Sequence(vec![]),
            LayeredVec::Element(3),
        ]),
        LayeredVec::Element(4),
    ])
}

fn elements(lv: &LayeredVec<u32>) -> Vec<u32> {
    let mut out = Vec::new();
    let mut it = lv.iter();
    while let Some(x) = it.next() {
        out.push(*x);
    }
    out
}

fn paths(lv: &LayeredVec<u32>) -> Vec<Vec<usize>> {
    let mut out = Vec::new();
    let mut it = lv.path_iter();
    while let Some(p) = it.next() {
        out.push(p);
    }
    out
}

#[test]
fn elements_come_depth_first() {
    assert_eq!(elements(&sample()), vec![1, 2, 3, 4]);
    assert_eq!(elements(&LayeredVec::Element(9)), vec![9]);
    assert!(elements(&LayeredVec::new()).is_empty());
    assert!(elements(&LayeredVec::default()).is_empty());
}

#[test]
fn each_element_has_its_path() {
    assert_eq!(paths(&sample()), vec![vec![0], vec![1, 0], vec![1, 2], vec![2]]);
    assert_eq!(paths(&LayeredVec::Element(9)), vec![Vec::<usize>::new()]);
    assert!(paths(&LayeredVec::new()).is_empty());
}

#[test]
fn iterators_stay_empty_once_done() {
    let lv = sample();
    let mut it = lv.iter();
    for _ in 0..4 {
        assert!(it.next().is_some());
    }
    assert!(it.next().is_none());
    assert!(it.next().is_none());
    let mut ps = lv.path_iter();
    for _ in 0..4 {
        assert!(ps.next().is_some());
    }
    assert!(ps.next().is_none());
    assert!(ps.next().is_none());
}

#[test]
fn paths_rise_in_lexicographic_order() {
    let ps = paths(&sample());
    for w in ps.windows(2) {
        assert!(w[0] < w[1]);
        assert!(!w[1].starts_with(&w[0]));
    }
}
