use data_structures::llrb::LLRB;

struct Test {
    llrb: LLRB,
    vec: Vec<(u64, u64)>,
}

impl Test {
    fn new() -> Self {
        Self { llrb: LLRB::new(), vec: Vec::new() }
    }
    fn len(&self) -> usize {
        self.vec.len()
    }
    fn insert(&mut self, key: u64, value: u64) {
        self.llrb.insert(key, value);
        if let Err(i) = self.vec.binary_search_by_key(&key, |&(key, _)| key) {
            self.vec.insert(i, (key, value));
        }
        self.postprocess();
    }
    fn delete(&mut self, x: u64) -> Option<(u64, u64)> {
        let r = self.llrb.delete(x);
        if let Ok(i) = self.vec.binary_search_by_key(&x, |&(key, _)| key) {
            let e = self.vec.remove(i);
            assert_eq!(r, Some(e));
        } else {
            assert_eq!(r, None);
        }
        self.postprocess();
        r
    }
    fn get(&mut self, i: usize) {
        let result = self.llrb.get(i);
        let expected = self.vec.get(i).copied();
        assert_eq!(result, expected, "Failed in `get`");
        self.postprocess();
    }
    fn fold(&mut self, l: usize, r: usize) {
        let result = self.llrb.fold(l, r).unwrap_or(0);
        let expected = self.vec[l..r].iter().map(|(_, value)| value).sum::<u64>();
        assert_eq!(result, expected, "Failed in `fold`");
        self.postprocess();
    }
    fn postprocess(&self) {
        assert_eq!(&self.llrb.collect_vec(), &self.vec);
        assert_eq!(self.llrb.len(), self.vec.len());
    }
}

#[test]
fn test_hand_insert() {
    let mut test = Test::new();
    test.insert(10, 10);
    test.insert(11, 10);
    test.insert(18, 10);
    test.insert(14, 10);
    test.insert(13, 10);
    test.insert(18, 10);
}

#[test]
fn test_hand_delete() {
    let mut test = Test::new();
    test.insert(10, 10);
    test.insert(11, 10);
    test.insert(15, 10);
    test.insert(17, 10);
    test.delete(17);
    test.delete(11);
    test.delete(12);
}

#[test]
fn test_hand_get() {
    let mut test = Test::new();
    test.insert(10, 10);
    test.insert(11, 10);
    test.insert(18, 10);
    test.insert(14, 10);
    test.insert(13, 10);
    test.insert(18, 10);
    (0..10).for_each(|i| test.get(i));
}

#[test]
fn test_oneline() {
    let mut test = Test::new();
    (0..100).for_each(|i| test.insert(i, 10));
    (0..100).for_each(|i| {
        test.delete(i);
    });
    assert_eq!(test.len(), 0);
}

#[test]
fn test_oneline_reverse() {
    let mut test = Test::new();
    (0..100).for_each(|i| test.insert(i, 10));
    (0..100).rev().for_each(|i| {
        test.delete(i);
    });
    assert_eq!(test.len(), 0);
}

#[test]
fn lib_test_hand_insert() {
    let mut test = Test::new();
    test.insert(10, 42);
    test.insert(11, 42);
    test.insert(18, 42);
    test.insert(14, 42);
    test.insert(13, 42);
    test.insert(18, 42);
}

#[test]
fn lib_test_hand_delete() {
    let mut test = Test::new();
    test.insert(10, 42);
    test.insert(11, 42);
    test.insert(15, 42);
    test.insert(17, 42);
    test.delete(17);
    test.delete(11);
    test.delete(12);
}

#[test]
fn lib_test_hand_get() {
    let mut test = Test::new();
    test.insert(10, 42);
    test.insert(11, 42);
    test.insert(18, 42);
    test.insert(14, 42);
    test.insert(13, 42);
    test.insert(18, 42);
    (0..10).for_each(|i| test.get(i));
}

#[test]
fn test_absent_delete_scenario() {
    // inserts in order, deletes two keys, then an absent one
    let mut t = LLRB::new();
    t.insert(10, 0);
    t.insert(11, 0);
    t.insert(15, 0);
    t.insert(17, 0);
    assert_eq!(t.delete(17), Some((17, 0)));
    assert_eq!(t.delete(11), Some((11, 0)));
    assert_eq!(t.delete(12), None);
    let got: Vec<u64> = t.collect_vec().iter().map(|&(k, _)| k).collect();
    assert_eq!(got, vec![10, 15]);
}

#[test]
fn test_range_fold_sums() {
    // keys 0..n with values 1..=n under the integer sum
    let n: u64 = 40;
    let mut t = LLRB::new();
    for i in 0..n {
        t.insert(i, i + 1);
    }
    for l in 0..=n as usize {
        for r in l..=n as usize {
            let expected: u64 = (l as u64 + 1..=r as u64).sum();
            let got = t.fold(l, r).unwrap_or(0);
            assert_eq!(got, expected);
        }
    }
}

#[test]
fn test_fold_hand() {
    let mut test = Test::new();
    for i in 0..30 {
        test.insert(i * 3 % 31, i);
    }
    for l in 0..test.len() {
        for r in l..=test.len() {
            test.fold(l, r);
        }
    }
}

#[test]
fn test_empty_tree() {
    let mut t = LLRB::new();
    assert!(t.is_empty());
    assert_eq!(t.len(), 0);
    assert_eq!(t.get(0), None);
    assert_eq!(t.fold(0, 0), None);
    assert_eq!(t.delete(3), None);
    assert_eq!(t.collect_vec(), Vec::new());
    t.insert(1, 2);
    assert!(!t.is_empty());
    t.insert(1, 9);
    // a duplicate key is a no-op
    assert_eq!(t.collect_vec(), vec![(1, 2)]);
}
